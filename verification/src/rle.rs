//! Reading and writing Golly's Extended RLE pattern format.
//!
//! An RLE file holds note lines (`#`-prefixed, with `#CXRLE` carrying
//! position and generation metadata), one header line `x = <w>, y = <h>[,
//! rule = <name>]`, and a run-length-encoded content block of cell-state
//! tokens ended by `!`.  RLE rows grow downward while the tree's Y axis
//! grows upward, so rows are reflected while decoding.

use vstd::prelude::*;
use vstd::string::StringSliceAdditionalSpecFns;

use std::rc::Rc;

use crate::cache::NdTreeCache;
use crate::ndtree::NdTree;
use crate::ndvec::BigVec;
use crate::ndvec::NdVec;
use crate::node::node_of;
use crate::node::rc_clone;
use crate::node::wf_node;
use crate::node::NdTreeNode;
use crate::node::DEFAULT_CELL;

verus! {

/// The byte values of the characters the codec reads.
pub const B_DOT: u8 = 46;

/// The byte value of the legacy dead-cell token.
pub const B_LOWER_B: u8 = 98;

/// The byte value of the legacy live-cell token.
pub const B_LOWER_O: u8 = 111;

/// The byte value of `A`, the first one-character state token.
pub const B_UPPER_A: u8 = 65;

/// The byte value of `X`, the last in-range second character.
pub const B_UPPER_X: u8 = 88;

/// The byte value of `p`, the first two-character state prefix.
pub const B_LOWER_P: u8 = 112;

/// The byte value of `y`, the last two-character state prefix.
pub const B_LOWER_Y: u8 = 121;

/// An error from decoding a single cell-state token.
#[derive(Debug, PartialEq, Eq, Structural, Clone, Copy)]
pub enum ParseError {
    /// The token is not a cell state at all.
    InvalidCellState,
    /// The token is a cell state, but not one this cell type can hold.
    CellStateOutOfRange,
}

/// The canonical RLE token for a cell state: `.` for the default state,
/// one character `A`..`X` for 1 through 24, and a two-character token
/// for 25 through 255.
pub open spec fn u8_token(v: u8) -> Seq<u8> {
    if v == 0 {
        seq![B_DOT]
    } else if v <= 24 {
        seq![(B_UPPER_A + v - 1) as u8]
    } else {
        seq![(B_LOWER_P + (v - 1) / 24 - 1) as u8, (B_UPPER_A + (v - 1) % 24) as u8]
    }
}

/// Decodes one whole token as a cell state: `b` and `.` are 0, `o` is
/// 1, `A`..`X` are 1 through 24, and `p?`..`y?` reach up to 255.
pub open spec fn parse_u8_token(s: Seq<u8>) -> Result<u8, ParseError> {
    if s.len() == 1 && (s[0] == B_LOWER_B || s[0] == B_DOT) {
        Ok(0)
    } else if s.len() == 1 && s[0] == B_LOWER_O {
        Ok(1)
    } else if s.len() == 1 && B_UPPER_A <= s[0] <= B_UPPER_X {
        Ok((s[0] - B_UPPER_A + 1) as u8)
    } else if s.len() == 2 && B_LOWER_P <= s[0] <= B_LOWER_Y && B_UPPER_A <= s[1] <= B_UPPER_X {
        let n = (s[0] - B_LOWER_P + 1) * 24 + (s[1] - B_UPPER_A + 1);
        if n <= 255 {
            Ok(n as u8)
        } else {
            Err(ParseError::InvalidCellState)
        }
    } else {
        Err(ParseError::InvalidCellState)
    }
}

/// The bytes of an ASCII character sequence, one byte per character.
pub open spec fn ascii_bytes(s: Seq<char>) -> Seq<u8> {
    Seq::new(s.len(), |i: int| s[i] as u8)
}

/// Decodes one whole token, taken as text, as a `u8` cell state;
/// non-ASCII text never holds a valid token.
pub open spec fn parse_u8_text(s: Seq<char>) -> Result<u8, ParseError> {
    if vstd::utf8::is_ascii_chars(s) {
        parse_u8_token(ascii_bytes(s))
    } else {
        Err(ParseError::InvalidCellState)
    }
}

/// Decodes one whole token, taken as text, as a boolean cell state.
pub open spec fn parse_bool_text(s: Seq<char>) -> Result<bool, ParseError> {
    match parse_u8_text(s) {
        Ok(0u8) => Ok(false),
        Ok(1u8) => Ok(true),
        Ok(_) => Err(ParseError::CellStateOutOfRange),
        Err(e) => Err(e),
    }
}

/// Decoding the canonical token of any `u8` state gives that state
/// back, and the token is one character for states up to 24 and two
/// characters above.
pub proof fn lemma_u8_token_round_trip(v: u8)
    ensures
        parse_u8_token(u8_token(v)) == Ok::<u8, ParseError>(v),
        v <= 24 ==> u8_token(v).len() == 1,
        v > 24 ==> u8_token(v).len() == 2,
{
    if v == 0 {
    } else if v <= 24 {
    } else {
        assert(1 <= (v - 1) / 24 <= 10);
        assert((v - 1) % 24 < 24);
        let s = u8_token(v);
        assert(s[0] == B_LOWER_P + (v - 1) / 24 - 1);
        assert(s[1] == B_UPPER_A + (v - 1) % 24);
        assert((s[0] - B_LOWER_P + 1) * 24 + (s[1] - B_UPPER_A + 1) == ((v - 1) / 24) * 24 + (v
            - 1) % 24 + 1);
        assert(((v - 1) / 24) * 24 + (v - 1) % 24 == v - 1) by {
            vstd::arithmetic::div_mod::lemma_fundamental_div_mod(v - 1, 24);
        }
    }
}

/// The boolean tokens decode back to the booleans they encode.
pub proof fn lemma_bool_token_round_trip(b: bool)
    ensures
        parse_u8_token(if b {
            seq![B_LOWER_O]
        } else {
            seq![B_LOWER_B]
        }) == Ok::<u8, ParseError>(
            if b {
                1
            } else {
                0
            },
        ),
{
}

/// Computes the one-based distance between two characters, so that the
/// distance from a character to itself is one.
pub fn char_diff(ch1: char, ch2: char) -> (r: u8)
    requires
        ch1 as u32 <= ch2 as u32,
        ch2 as u32 - ch1 as u32 + 1 <= 255,
    ensures
        r as int == ch2 as u32 - ch1 as u32 + 1,
{
    ((ch2 as u32) - (ch1 as u32) + 1) as u8
}

/// The characters of a byte string, one per byte.
pub open spec fn chars_of(s: Seq<u8>) -> Seq<char> {
    s.map_values(|b: u8| b as char)
}

/// True when every byte is ASCII.
pub open spec fn lt128(s: Seq<u8>) -> bool {
    forall|i: int| 0 <= i < s.len() ==> #[trigger] s[i] < 128
}

/// Decoding the canonical text token of any `u8` state gives that
/// state back.
pub proof fn lemma_cell_text_round_trip(v: u8)
    ensures
        parse_u8_text(chars_of(u8_token(v))) == Ok::<u8, ParseError>(v),
{
    lemma_u8_token_round_trip(v);
    lemma_token_ascii(v);
    lemma_ascii_chars_bytes(u8_token(v));
}

/// Decoding the text token of a boolean cell gives that boolean back.
pub proof fn lemma_bool_text_round_trip(b: bool)
    ensures
        parse_bool_text(
            chars_of(
                if b {
                    seq![B_LOWER_O]
                } else {
                    seq![B_LOWER_B]
                },
            ),
        ) == Ok::<bool, ParseError>(b),
{
    lemma_bool_token_round_trip(b);
    lemma_ascii_chars_bytes(
        if b {
            seq![B_LOWER_O]
        } else {
            seq![B_LOWER_B]
        },
    );
}

/// Turning ASCII bytes into characters and back is the identity, and
/// the characters are ASCII.
pub proof fn lemma_ascii_chars_bytes(s: Seq<u8>)
    requires
        lt128(s),
    ensures
        vstd::utf8::is_ascii_chars(chars_of(s)),
        ascii_bytes(chars_of(s)) == s,
{
    let cs = chars_of(s);
    assert forall|i: int| 0 <= i < cs.len() implies '\0' <= #[trigger] cs[i] <= '\u{7f}' by {
        assert(cs[i] == s[i] as char);
        assert(s[i] < 128);
    }
    assert forall|i: int| 0 <= i < ascii_bytes(cs).len() implies #[trigger] ascii_bytes(cs)[i]
        == s[i] by {
        assert(ascii_bytes(cs)[i] == cs[i] as u8);
        assert(cs[i] == s[i] as char);
    }
    assert(ascii_bytes(cs) =~= s);
}

/// Relies on String::from_utf8: ASCII bytes decode to the string whose
/// characters are those bytes.
#[verifier::external_body]
fn ascii_string(bytes: &Vec<u8>) -> (r: String)
    requires
        lt128(bytes@),
    ensures
        r@ == chars_of(bytes@),
        r@.len() == bytes@.len(),
{
    String::from_utf8(bytes.clone()).unwrap_or_default()
}

/// Returns the bytes of an ASCII string, or nothing when the string
/// holds a character outside ASCII.
fn to_ascii_bytes(s: &str) -> (r: Option<Vec<u8>>)
    ensures
        match r {
            Some(v) => vstd::utf8::is_ascii_chars(s@) && v@ == ascii_bytes(s@),
            None => !vstd::utf8::is_ascii_chars(s@),
        },
{
    if !s.is_ascii() {
        return None;
    }
    proof {
        vstd::utf8::is_ascii_chars_encode_utf8(s@);
    }
    let b: &[u8] = s.as_bytes();
    let n: usize = b.len();
    let mut v: Vec<u8> = Vec::new();
    let mut i: usize = 0;
    while i < n
        invariant
            i <= n == b@.len(),
            b@ == s.spec_bytes(),
            s.spec_bytes().len() == s@.len(),
            forall|j: int| 0 <= j < s@.len() ==> s@[j] as u8 == s.spec_bytes()[j],
            v@.len() == i,
            forall|j: int| 0 <= j < i ==> #[trigger] v@[j] == b@[j],
        decreases n - i,
    {
        v.push(b[i]);
        i = i + 1;
    }
    proof {
        assert(v@ =~= ascii_bytes(s@));
    }
    Some(v)
}

/// Conversions between cell states and their text-based RLE tokens.
pub trait RleCellType: Sized {
    /// The canonical token bytes this state encodes to.
    spec fn spec_token(self) -> Seq<u8>;

    /// The state a whole text token decodes to, or the error it raises.
    spec fn spec_parse(s: Seq<char>) -> Result<Self, ParseError>;

    /// Appends the RLE representation of this cell to the given string.
    fn push_to_string(self, s: &mut String)
        ensures
            final(s)@ == old(s)@ + self.spec_token().map_values(|b: u8| b as char),
    ;

    /// Decodes the given string slice as a single cell.
    fn from_str(s: &str) -> (r: Result<Self, ParseError>)
        ensures
            r == Self::spec_parse(s@),
    ;
}

/// Appends the canonical token bytes of a `u8` state.
pub fn push_u8_token(v: u8, out: &mut Vec<u8>)
    ensures
        final(out)@ == old(out)@ + u8_token(v),
{
    if v == 0 {
        out.push(B_DOT);
    } else if v <= 24 {
        out.push(B_UPPER_A + v - 1);
    } else {
        out.push(B_LOWER_P + (v - 1) / 24 - 1);
        out.push(B_UPPER_A + (v - 1) % 24);
    }
    proof {
        assert(final(out)@ =~= old(out)@ + u8_token(v));
    }
}

/// Decodes one whole byte token as a `u8` cell state.
pub fn parse_u8_bytes(s: &Vec<u8>) -> (r: Result<u8, ParseError>)
    ensures
        r == parse_u8_token(s@),
{
    let n: usize = s.len();
    if n == 1 && (s[0] == B_LOWER_B || s[0] == B_DOT) {
        Ok(0)
    } else if n == 1 && s[0] == B_LOWER_O {
        Ok(1)
    } else if n == 1 && B_UPPER_A <= s[0] && s[0] <= B_UPPER_X {
        Ok(s[0] - B_UPPER_A + 1)
    } else if n == 2 && B_LOWER_P <= s[0] && s[0] <= B_LOWER_Y && B_UPPER_A <= s[1] && s[1]
        <= B_UPPER_X {
        let hi: u16 = (s[0] - B_LOWER_P + 1) as u16;
        let lo: u16 = (s[1] - B_UPPER_A + 1) as u16;
        let val: u16 = hi * 24 + lo;
        if val <= 255 {
            Ok(val as u8)
        } else {
            Err(ParseError::InvalidCellState)
        }
    } else {
        Err(ParseError::InvalidCellState)
    }
}

impl RleCellType for u8 {
    open spec fn spec_token(self) -> Seq<u8> {
        u8_token(self)
    }

    open spec fn spec_parse(s: Seq<char>) -> Result<u8, ParseError> {
        parse_u8_text(s)
    }

    fn push_to_string(self, s: &mut String) {
        let mut bytes: Vec<u8> = Vec::new();
        push_u8_token(self, &mut bytes);
        proof {
            lemma_u8_token_round_trip(self);
            assert(forall|i: int| 0 <= i < bytes@.len() ==> #[trigger] bytes@[i] < 128);
        }
        let t: String = ascii_string(&bytes);
        proof {
            assert(t@ =~= self.spec_token().map_values(|b: u8| b as char));
        }
        s.append(t.as_str());
    }

    fn from_str(s: &str) -> (r: Result<u8, ParseError>) {
        match to_ascii_bytes(s) {
            None => Err(ParseError::InvalidCellState),
            Some(bytes) => parse_u8_bytes(&bytes),
        }
    }
}

impl RleCellType for bool {
    open spec fn spec_token(self) -> Seq<u8> {
        if self {
            seq![B_LOWER_O]
        } else {
            seq![B_LOWER_B]
        }
    }

    open spec fn spec_parse(s: Seq<char>) -> Result<bool, ParseError> {
        parse_bool_text(s)
    }

    fn push_to_string(self, s: &mut String) {
        let mut bytes: Vec<u8> = Vec::new();
        bytes.push(if self {
            B_LOWER_O
        } else {
            B_LOWER_B
        });
        proof {
            assert(forall|i: int| 0 <= i < bytes@.len() ==> #[trigger] bytes@[i] < 128);
            assert(bytes@ =~= self.spec_token());
        }
        let t: String = ascii_string(&bytes);
        proof {
            assert(t@ =~= self.spec_token().map_values(|b: u8| b as char));
        }
        s.append(t.as_str());
    }

    fn from_str(s: &str) -> (r: Result<bool, ParseError>) {
        let n: Result<u8, ParseError> = RleCellType::from_str(s);
        match n {
            Ok(0u8) => Ok(false),
            Ok(1u8) => Ok(true),
            Ok(_) => Err(ParseError::CellStateOutOfRange),
            Err(e) => Err(e),
        }
    }
}

/// True for the blank characters the codec skips: space, tab and
/// carriage return.
pub open spec fn is_ws(b: u8) -> bool {
    b == 32 || b == 9 || b == 13
}

/// True for ASCII decimal digits.
pub open spec fn is_digit(b: u8) -> bool {
    48 <= b <= 57
}

/// The index of the first occurrence of `sep` at or after `from`, or
/// the length of the sequence when there is none.
pub open spec fn find_from(s: Seq<u8>, from: int, sep: u8) -> int
    decreases s.len() - from,
{
    if from < 0 || from >= s.len() {
        s.len() as int
    } else if s[from] == sep {
        from
    } else {
        find_from(s, from + 1, sep)
    }
}

/// `find_from` lands on the separator it reports, and nothing before.
pub proof fn lemma_find_from(s: Seq<u8>, from: int, sep: u8)
    requires
        0 <= from <= s.len(),
    ensures
        from <= find_from(s, from, sep) <= s.len(),
        find_from(s, from, sep) < s.len() ==> s[find_from(s, from, sep)] == sep,
        forall|j: int| from <= j < find_from(s, from, sep) ==> s[j] != sep,
    decreases s.len() - from,
{
    if from < s.len() && s[from] != sep {
        lemma_find_from(s, from + 1, sep);
    }
}

/// Finds the first occurrence of `sep` at or after `from`.
pub fn find_from_exec(s: &Vec<u8>, from: usize, sep: u8) -> (r: usize)
    requires
        from <= s@.len(),
    ensures
        r == find_from(s@, from as int, sep),
{
    let n: usize = s.len();
    let mut i: usize = from;
    while i < n
        invariant
            from <= i <= n == s@.len(),
            find_from(s@, from as int, sep) == find_from(s@, i as int, sep),
            forall|j: int| from <= j < i ==> s@[j] != sep,
        decreases n - i,
    {
        if s[i] == sep {
            return i;
        }
        i = i + 1;
    }
    n
}

/// The sub-sequence with leading and trailing blanks removed.
pub open spec fn trim_spec(s: Seq<u8>) -> Seq<u8>
    decreases s.len(),
{
    if s.len() == 0 {
        s
    } else if is_ws(s[0]) {
        trim_spec(s.drop_first())
    } else if is_ws(s.last()) {
        trim_spec(s.drop_last())
    } else {
        s
    }
}

/// Removes leading and trailing blanks.
pub fn trim_exec(s: &Vec<u8>) -> (r: Vec<u8>)
    ensures
        r@ == trim_spec(s@),
    decreases s@.len(),
{
    let n: usize = s.len();
    if n == 0 {
        Vec::new()
    } else if s[0] == 32 || s[0] == 9 || s[0] == 13 {
        let mut rest: Vec<u8> = Vec::new();
        let mut i: usize = 1;
        while i < n
            invariant
                1 <= i <= n == s@.len(),
                rest@ == s@.subrange(1, i as int),
            decreases n - i,
        {
            rest.push(s[i]);
            proof {
                assert(rest@ =~= s@.subrange(1, i + 1));
            }
            i = i + 1;
        }
        proof {
            assert(rest@ =~= s@.drop_first());
        }
        trim_exec(&rest)
    } else if s[n - 1] == 32 || s[n - 1] == 9 || s[n - 1] == 13 {
        let mut rest: Vec<u8> = Vec::new();
        let mut i: usize = 0;
        while i < n - 1
            invariant
                i <= n - 1,
                n == s@.len(),
                rest@ == s@.subrange(0, i as int),
            decreases n - 1 - i,
        {
            rest.push(s[i]);
            proof {
                assert(rest@ =~= s@.subrange(0, i + 1));
            }
            i = i + 1;
        }
        proof {
            assert(rest@ =~= s@.drop_last());
        }
        trim_exec(&rest)
    } else {
        let mut r: Vec<u8> = Vec::new();
        let mut i: usize = 0;
        while i < n
            invariant
                i <= n == s@.len(),
                r@ == s@.subrange(0, i as int),
            decreases n - i,
        {
            r.push(s[i]);
            proof {
                assert(r@ =~= s@.subrange(0, i + 1));
            }
            i = i + 1;
        }
        proof {
            assert(r@ =~= s@);
        }
        r
    }
}

/// The pieces of a sequence split on a separator byte; the separator
/// itself appears in no piece, and an empty sequence has one empty
/// piece.
pub open spec fn split_on(s: Seq<u8>, sep: u8) -> Seq<Seq<u8>>
    decreases s.len(),
{
    let i = find_from(s, 0, sep);
    if 0 <= i < s.len() {
        seq![s.subrange(0, i)] + split_on(s.subrange(i + 1, s.len() as int), sep)
    } else {
        seq![s]
    }
}

/// Splits a sequence on a separator byte.
pub fn split_on_exec(s: &Vec<u8>, sep: u8) -> (r: Vec<Vec<u8>>)
    ensures
        r@.map_values(|v: Vec<u8>| v@) == split_on(s@, sep),
    decreases s@.len(),
{
    let i: usize = find_from_exec(s, 0, sep);
    proof {
        lemma_find_from(s@, 0, sep);
    }
    let n: usize = s.len();
    let mut head: Vec<u8> = Vec::new();
    let mut k: usize = 0;
    while k < i
        invariant
            k <= i <= n == s@.len(),
            head@ == s@.subrange(0, k as int),
        decreases i - k,
    {
        head.push(s[k]);
        proof {
            assert(head@ =~= s@.subrange(0, k + 1));
        }
        k = k + 1;
    }
    if i == n {
        proof {
            assert(head@ =~= s@);
        }
        let mut r: Vec<Vec<u8>> = Vec::new();
        r.push(head);
        proof {
            assert(r@.map_values(|v: Vec<u8>| v@) =~= split_on(s@, sep));
        }
        r
    } else {
        let mut tail: Vec<u8> = Vec::new();
        let mut k2: usize = i + 1;
        while k2 < n
            invariant
                i + 1 <= k2 <= n == s@.len(),
                tail@ == s@.subrange(i + 1, k2 as int),
            decreases n - k2,
        {
            tail.push(s[k2]);
            proof {
                assert(tail@ =~= s@.subrange(i + 1, k2 + 1));
            }
            k2 = k2 + 1;
        }
        proof {
            assert(tail@ =~= s@.subrange(i + 1, s@.len() as int));
        }
        let rest: Vec<Vec<u8>> = split_on_exec(&tail, sep);
        let mut r: Vec<Vec<u8>> = Vec::new();
        r.push(head);
        let m: usize = rest.len();
        let mut j: usize = 0;
        while j < m
            invariant
                j <= m == rest@.len(),
                r@.len() == j + 1,
                r@[0]@ == s@.subrange(0, i as int),
                forall|t: int| 0 <= t < j ==> #[trigger] r@[t + 1]@ == rest@[t]@,
            decreases m - j,
        {
            let mut piece: Vec<u8> = Vec::new();
            let pl: usize = rest[j].len();
            let mut pk: usize = 0;
            while pk < pl
                invariant
                    pk <= pl == rest@[j as int]@.len(),
                    j < rest@.len(),
                    piece@ == rest@[j as int]@.subrange(0, pk as int),
                decreases pl - pk,
            {
                piece.push(rest[j][pk]);
                proof {
                    assert(piece@ =~= rest@[j as int]@.subrange(0, pk + 1));
                }
                pk = pk + 1;
            }
            proof {
                assert(piece@ =~= rest@[j as int]@);
            }
            r.push(piece);
            j = j + 1;
        }
        proof {
            assert(r@.map_values(|v: Vec<u8>| v@) =~= split_on(s@, sep)) by {
                assert(split_on(s@, sep) == seq![s@.subrange(0, i as int)] + split_on(
                    tail@,
                    sep,
                ));
                assert(rest@.map_values(|v: Vec<u8>| v@) == split_on(tail@, sep));
                let ghost lhs = r@.map_values(|v: Vec<u8>| v@);
                let ghost rhs = seq![s@.subrange(0, i as int)] + split_on(tail@, sep);
                assert forall|t: int| 0 <= t < lhs.len() implies #[trigger] lhs[t] == rhs[t] by {
                    assert(lhs[t] == r@[t]@);
                    if t > 0 {
                        assert(r@[t - 1 + 1]@ == rest@[t - 1]@);
                        assert(r@[t]@ == rest@[t - 1]@);
                        assert(rest@.map_values(|v: Vec<u8>| v@)[t - 1] == rest@[t - 1]@);
                    }
                }
                assert(lhs =~= rhs);
            }
        }
        r
    }
}

/// The numeric value of a digit string.
pub open spec fn digits_val(s: Seq<u8>) -> int
    decreases s.len(),
{
    if s.len() == 0 {
        0
    } else {
        digits_val(s.drop_last()) * 10 + (s.last() - 48)
    }
}

/// True when the sequence is one or more decimal digits.
pub open spec fn all_digits(s: Seq<u8>) -> bool {
    s.len() >= 1 && forall|i: int| 0 <= i < s.len() ==> is_digit(#[trigger] s[i])
}

/// The signed 64-bit integer a whole token denotes: an optional sign
/// followed by digits, within the range of `i64`.
pub open spec fn parse_i64_spec(s: Seq<u8>) -> Option<i64> {
    if s.len() >= 1 && (s[0] == 45 || s[0] == 43) {
        let mag = s.drop_first();
        if all_digits(mag) {
            let v = if s[0] == 45 {
                -digits_val(mag)
            } else {
                digits_val(mag)
            };
            if i64::MIN <= v <= i64::MAX {
                Some(v as i64)
            } else {
                None
            }
        } else {
            None
        }
    } else if all_digits(s) {
        if digits_val(s) <= i64::MAX {
            Some(digits_val(s) as i64)
        } else {
            None
        }
    } else {
        None
    }
}

/// A digit string's value never shrinks as digits are appended.
pub proof fn lemma_digits_val_bounds(s: Seq<u8>)
    requires
        forall|i: int| 0 <= i < s.len() ==> is_digit(#[trigger] s[i]),
    ensures
        digits_val(s) >= 0,
    decreases s.len(),
{
    if s.len() > 0 {
        assert(forall|i: int|
            0 <= i < s.drop_last().len() ==> is_digit(#[trigger] s.drop_last()[i]));
        lemma_digits_val_bounds(s.drop_last());
    }
}

/// Computes the magnitude of a digit string, reporting only whether it
/// exceeds the given cap.
fn digits_val_exec(s: &Vec<u8>, from: usize, until: usize, cap: u64) -> (r: Option<u64>)
    requires
        from <= until <= s@.len(),
        forall|i: int| from <= i < until ==> is_digit(#[trigger] s@[i]),
    ensures
        match r {
            Some(v) => v as int == digits_val(s@.subrange(from as int, until as int)) && v <= cap,
            None => digits_val(s@.subrange(from as int, until as int)) > cap,
        },
{
    let mut acc: u64 = 0;
    let mut i: usize = from;
    let mut over: bool = false;
    proof {
        assert(s@.subrange(from as int, from as int) =~= Seq::<u8>::empty());
    }
    while i < until
        invariant
            from <= i <= until <= s@.len(),
            forall|j: int| from <= j < until ==> is_digit(#[trigger] s@[j]),
            !over ==> acc as int == digits_val(s@.subrange(from as int, i as int)) && acc <= cap,
            over ==> digits_val(s@.subrange(from as int, i as int)) > cap,
            cap <= u64::MAX,
        decreases until - i,
    {
        let ghost pre = s@.subrange(from as int, i as int);
        let ghost post = s@.subrange(from as int, i + 1);
        proof {
            assert(post.drop_last() =~= pre);
            assert(post.last() == s@[i as int]);
            assert(forall|j: int| 0 <= j < pre.len() ==> is_digit(#[trigger] pre[j]));
            lemma_digits_val_bounds(pre);
        }
        let d: u64 = (s[i] - 48) as u64;
        if over {
            proof {
                assert(digits_val(post) == digits_val(pre) * 10 + d);
                assert(digits_val(pre) > cap);
                assert(digits_val(pre) * 10 >= digits_val(pre));
            }
        } else {
            if acc > (u64::MAX - d) / 10 {
                proof {
                    assert(digits_val(post) == acc * 10 + d);
                    assert(acc * 10 + d > u64::MAX >= cap) by {
                        assert(acc >= (u64::MAX - d) / 10 + 1);
                        assert(acc * 10 >= ((u64::MAX - d) / 10 + 1) * 10) by (nonlinear_arith)
                            requires
                                acc >= (u64::MAX - d) / 10 + 1,
                        ;
                        vstd::arithmetic::div_mod::lemma_fundamental_div_mod(
                            (u64::MAX - d) as int,
                            10,
                        );
                    }
                }
                over = true;
            } else {
                let next: u64 = acc * 10 + d;
                if next > cap {
                    over = true;
                } else {
                    acc = next;
                }
                proof {
                    assert(digits_val(post) == digits_val(pre) * 10 + d);
                }
            }
        }
        i = i + 1;
    }
    if over {
        None
    } else {
        Some(acc)
    }
}

/// True when the bytes from `from` to `until` are all digits, with at
/// least one digit.
fn check_all_digits(s: &Vec<u8>, from: usize, until: usize) -> (r: bool)
    requires
        from <= until <= s@.len(),
    ensures
        r == all_digits(s@.subrange(from as int, until as int)),
{
    if from == until {
        proof {
            assert(s@.subrange(from as int, until as int).len() == 0);
        }
        return false;
    }
    let mut i: usize = from;
    while i < until
        invariant
            from <= i <= until <= s@.len(),
            forall|j: int| from <= j < i ==> is_digit(#[trigger] s@[j]),
        decreases until - i,
    {
        if !(48 <= s[i] && s[i] <= 57) {
            proof {
                assert(!is_digit(s@.subrange(from as int, until as int)[i - from]));
            }
            return false;
        }
        i = i + 1;
    }
    proof {
        assert forall|j: int|
            0 <= j < s@.subrange(from as int, until as int).len() implies is_digit(
            #[trigger] s@.subrange(from as int, until as int)[j],
        ) by {
            assert(s@.subrange(from as int, until as int)[j] == s@[from + j]);
        }
    }
    true
}

/// An error raised while decoding an RLE pattern.
#[derive(Debug, PartialEq, Eq, Structural, Clone, Copy)]
pub enum RleError {
    /// The text holds characters outside ASCII.
    NotAscii,
    /// No header line was found.
    MissingHeader,
    /// A second CXRLE note was found.
    MultipleCxrle,
    /// The header line is malformed.
    InvalidHeader,
    /// A CXRLE value is malformed.
    InvalidCxrle,
    /// A CXRLE key is not recognized.
    UnknownCxrleKey,
    /// A run count is malformed or zero.
    InvalidCount,
    /// A cell-state token is malformed.
    InvalidCellToken,
    /// The pattern reaches coordinates outside the addressable range.
    PositionOutOfRange,
}

/// Splits a `key = value` piece at its first equals sign, trimming
/// both sides.
pub open spec fn parse_kv(part: Seq<u8>) -> Option<(Seq<u8>, Seq<u8>)> {
    let i = find_from(part, 0, 61);
    if 0 <= i < part.len() {
        Some((trim_spec(part.subrange(0, i)), trim_spec(part.subrange(i + 1, part.len() as int))))
    } else {
        None
    }
}

/// Splits a `key = value` piece at its first equals sign.
pub fn parse_kv_exec(part: &Vec<u8>) -> (r: Option<(Vec<u8>, Vec<u8>)>)
    ensures
        match r {
            Some(kv) => parse_kv(part@) matches Some(s) && s.0 == kv.0@ && s.1 == kv.1@,
            None => parse_kv(part@) is None,
        },
{
    let i: usize = find_from_exec(part, 0, 61);
    proof {
        lemma_find_from(part@, 0, 61);
    }
    let n: usize = part.len();
    if i == n {
        return None;
    }
    let mut left: Vec<u8> = Vec::new();
    let mut k: usize = 0;
    while k < i
        invariant
            k <= i <= n == part@.len(),
            left@ == part@.subrange(0, k as int),
        decreases i - k,
    {
        left.push(part[k]);
        proof {
            assert(left@ =~= part@.subrange(0, k + 1));
        }
        k = k + 1;
    }
    let mut right: Vec<u8> = Vec::new();
    let mut k2: usize = i + 1;
    while k2 < n
        invariant
            i + 1 <= k2 <= n == part@.len(),
            right@ == part@.subrange(i + 1, k2 as int),
        decreases n - k2,
    {
        right.push(part[k2]);
        proof {
            assert(right@ =~= part@.subrange(i + 1, k2 + 1));
        }
        k2 = k2 + 1;
    }
    proof {
        assert(left@ =~= part@.subrange(0, i as int));
        assert(right@ =~= part@.subrange(i + 1, part@.len() as int));
    }
    Some((trim_exec(&left), trim_exec(&right)))
}

/// The header keys and the CXRLE tag, as byte strings.
pub open spec fn key_x() -> Seq<u8> {
    seq![120u8]
}

/// The `y` header key.
pub open spec fn key_y() -> Seq<u8> {
    seq![121u8]
}

/// The `rule` header key.
pub open spec fn key_rule() -> Seq<u8> {
    seq![114u8, 117u8, 108u8, 101u8]
}

/// The `CXRLE ` note prefix.
pub open spec fn cxrle_tag() -> Seq<u8> {
    seq![67u8, 88u8, 82u8, 76u8, 69u8, 32u8]
}

/// The `Pos` CXRLE key.
pub open spec fn key_pos() -> Seq<u8> {
    seq![80u8, 111u8, 115u8]
}

/// The `Gen` CXRLE key.
pub open spec fn key_gen() -> Seq<u8> {
    seq![71u8, 101u8, 110u8]
}

/// Parses a whole trimmed header line: `x = <int>, y = <int>` with an
/// optional `, rule = <name>`.
pub open spec fn spec_parse_header(line: Seq<u8>) -> Option<(i64, i64, Option<Seq<u8>>)> {
    let parts = split_on(line, 44);
    if parts.len() == 2 || parts.len() == 3 {
        match (parse_kv(parts[0]), parse_kv(parts[1])) {
            (Some(kv0), Some(kv1)) => {
                if kv0.0 == key_x() && kv1.0 == key_y() {
                    match (parse_i64_spec(kv0.1), parse_i64_spec(kv1.1)) {
                        (Some(x), Some(y)) => {
                            if parts.len() == 3 {
                                match parse_kv(parts[2]) {
                                    Some(kv2) => if kv2.0 == key_rule() {
                                        Some((x, y, Some(kv2.1)))
                                    } else {
                                        None
                                    },
                                    None => None,
                                }
                            } else {
                                Some((x, y, None))
                            }
                        },
                        _ => None,
                    }
                } else {
                    None
                }
            },
            _ => None,
        }
    } else {
        None
    }
}

/// Compares a byte vector to a spec byte string.
fn bytes_eq(a: &Vec<u8>, ghost_len: usize, b0: u8, b1: u8, b2: u8, b3: u8) -> (r: bool)
    requires
        ghost_len <= 4,
    ensures
        r == (a@ == seq![b0, b1, b2, b3].take(ghost_len as int)),
{
    let n: usize = a.len();
    if n != ghost_len {
        proof {
            assert(seq![b0, b1, b2, b3].take(ghost_len as int).len() == ghost_len);
        }
        return false;
    }
    let pat: [u8; 4] = [b0, b1, b2, b3];
    let mut i: usize = 0;
    while i < n
        invariant
            i <= n == a@.len() == ghost_len <= 4,
            pat@ == seq![b0, b1, b2, b3],
            forall|j: int| 0 <= j < i ==> a@[j] == seq![b0, b1, b2, b3].take(ghost_len as int)[j],
        decreases n - i,
    {
        if a[i] != pat[i] {
            proof {
                assert(a@[i as int] != seq![b0, b1, b2, b3].take(ghost_len as int)[i as int]);
            }
            return false;
        }
        i = i + 1;
    }
    proof {
        assert(a@ =~= seq![b0, b1, b2, b3].take(ghost_len as int));
    }
    true
}

/// Parses a whole trimmed header line.
pub fn parse_header(line: &Vec<u8>) -> (r: Option<(i64, i64, Option<Vec<u8>>)>)
    ensures
        match r {
            Some(h) => spec_parse_header(line@) matches Some(sh) && sh.0 == h.0 && sh.1 == h.1
                && (match (h.2, sh.2) {
                (Some(hr), Some(sr)) => hr@ == sr,
                (None, None) => true,
                _ => false,
            }),
            None => spec_parse_header(line@) is None,
        },
{
    let parts: Vec<Vec<u8>> = split_on_exec(line, 44);
    let ghost sparts = split_on(line@, 44);
    proof {
        assert(parts@.map_values(|v: Vec<u8>| v@).len() == sparts.len());
        assert(forall|t: int|
            0 <= t < parts@.len() ==> #[trigger] parts@[t]@ == parts@.map_values(
                |v: Vec<u8>| v@,
            )[t]);
    }
    let np: usize = parts.len();
    if !(np == 2 || np == 3) {
        return None;
    }
    let kv0: Option<(Vec<u8>, Vec<u8>)> = parse_kv_exec(&parts[0]);
    let kv1: Option<(Vec<u8>, Vec<u8>)> = parse_kv_exec(&parts[1]);
    match (kv0, kv1) {
        (Some(kv0), Some(kv1)) => {
            proof {
                assert(key_x() =~= seq![120u8, 121u8, 0u8, 0u8].take(1));
                assert(key_y() =~= seq![121u8, 120u8, 0u8, 0u8].take(1));
                assert(key_rule() =~= seq![114u8, 117u8, 108u8, 101u8].take(4));
            }
            if !bytes_eq(&kv0.0, 1, 120, 121, 0, 0) {
                return None;
            }
            if !bytes_eq(&kv1.0, 1, 121, 120, 0, 0) {
                return None;
            }
            let x: Option<i64> = parse_i64_exec(&kv0.1);
            let y: Option<i64> = parse_i64_exec(&kv1.1);
            match (x, y) {
                (Some(x), Some(y)) => {
                    if np == 3 {
                        let kv2: Option<(Vec<u8>, Vec<u8>)> = parse_kv_exec(&parts[2]);
                        match kv2 {
                            Some(kv2) => {
                                if bytes_eq(&kv2.0, 4, 114, 117, 108, 101) {
                                    Some((x, y, Some(kv2.1)))
                                } else {
                                    None
                                }
                            },
                            None => None,
                        }
                    } else {
                        Some((x, y, None))
                    }
                },
                _ => None,
            }
        },
        _ => None,
    }
}

/// Parses the body of a `#CXRLE` note: space-separated `key=value`
/// pairs with keys `Pos` (two comma-separated integers) and `Gen` (one
/// integer); later pairs override earlier ones.
pub open spec fn spec_parse_cxrle(rest: Seq<u8>) -> Result<(i64, i64, i64), RleError> {
    cxrle_fold(split_on(trim_spec(rest), 32), 0, (0i64, 0i64, 0i64))
}

/// Folds the `key=value` pairs of a CXRLE note left to right.
pub open spec fn cxrle_fold(parts: Seq<Seq<u8>>, i: int, acc: (i64, i64, i64)) -> Result<
    (i64, i64, i64),
    RleError,
>
    decreases parts.len() - i,
{
    if i < 0 || i >= parts.len() {
        Ok(acc)
    } else if parts[i].len() == 0 {
        cxrle_fold(parts, i + 1, acc)
    } else {
        match parse_kv(parts[i]) {
            None => Err(RleError::InvalidCxrle),
            Some(kv) => {
                if kv.0 == key_pos() {
                    let comps = split_on(kv.1, 44);
                    if comps.len() == 2 {
                        match (parse_i64_spec(comps[0]), parse_i64_spec(comps[1])) {
                            (Some(px), Some(py)) => cxrle_fold(parts, i + 1, (px, py, acc.2)),
                            _ => Err(RleError::InvalidCxrle),
                        }
                    } else {
                        Err(RleError::InvalidCxrle)
                    }
                } else if kv.0 == key_gen() {
                    match parse_i64_spec(kv.1) {
                        Some(g) => cxrle_fold(parts, i + 1, (acc.0, acc.1, g)),
                        None => Err(RleError::InvalidCxrle),
                    }
                } else {
                    Err(RleError::UnknownCxrleKey)
                }
            },
        }
    }
}

/// Parses the body of a `#CXRLE` note.
pub fn parse_cxrle(rest: &Vec<u8>) -> (r: Result<(i64, i64, i64), RleError>)
    ensures
        r == spec_parse_cxrle(rest@),
{
    let trimmed: Vec<u8> = trim_exec(rest);
    let parts: Vec<Vec<u8>> = split_on_exec(&trimmed, 32);
    let ghost sparts = split_on(trim_spec(rest@), 32);
    proof {
        assert(parts@.map_values(|v: Vec<u8>| v@).len() == sparts.len());
        assert(forall|t: int|
            0 <= t < parts@.len() ==> #[trigger] parts@[t]@ == parts@.map_values(
                |v: Vec<u8>| v@,
            )[t]);
    }
    let np: usize = parts.len();
    let mut acc: (i64, i64, i64) = (0, 0, 0);
    let mut i: usize = 0;
    while i < np
        invariant
            i <= np == parts@.len(),
            sparts == split_on(trim_spec(rest@), 32),
            sparts == parts@.map_values(|v: Vec<u8>| v@),
            forall|t: int| 0 <= t < parts@.len() ==> #[trigger] parts@[t]@ == sparts[t],
            cxrle_fold(sparts, 0, (0i64, 0i64, 0i64)) == cxrle_fold(sparts, i as int, acc),
        decreases np - i,
    {
        proof {
            assert(parts@[i as int]@ == sparts[i as int]);
        }
        if parts[i].len() > 0 {
            match parse_kv_exec(&parts[i]) {
                None => {
                    proof {
                        assert(cxrle_fold(sparts, i as int, acc) == Err::<
                            (i64, i64, i64),
                            RleError,
                        >(RleError::InvalidCxrle));
                    }
                    return Err(RleError::InvalidCxrle);
                },
                Some(kv) => {
                    proof {
                        assert(key_pos() =~= seq![80u8, 111u8, 115u8, 0u8].take(3));
                        assert(key_gen() =~= seq![71u8, 101u8, 110u8, 0u8].take(3));
                    }
                    if bytes_eq(&kv.0, 3, 80, 111, 115, 0) {
                        let comps: Vec<Vec<u8>> = split_on_exec(&kv.1, 44);
                        let ghost scomps = split_on(kv.1@, 44);
                        proof {
                            assert(comps@.map_values(|v: Vec<u8>| v@).len() == scomps.len());
                            assert(forall|t: int|
                                0 <= t < comps@.len() ==> #[trigger] comps@[t]@
                                    == comps@.map_values(|v: Vec<u8>| v@)[t]);
                        }
                        if comps.len() != 2 {
                            proof {
                                assert(cxrle_fold(sparts, i as int, acc) == Err::<
                                    (i64, i64, i64),
                                    RleError,
                                >(RleError::InvalidCxrle));
                            }
                            return Err(RleError::InvalidCxrle);
                        }
                        let px: Option<i64> = parse_i64_exec(&comps[0]);
                        let py: Option<i64> = parse_i64_exec(&comps[1]);
                        match (px, py) {
                            (Some(px), Some(py)) => {
                                acc = (px, py, acc.2);
                            },
                            _ => {
                                proof {
                                    assert(comps@[0]@ == split_on(kv.1@, 44)[0]);
                                    assert(comps@[1]@ == split_on(kv.1@, 44)[1]);
                                    assert(cxrle_fold(sparts, i as int, acc) == Err::<
                                        (i64, i64, i64),
                                        RleError,
                                    >(RleError::InvalidCxrle));
                                }
                                return Err(RleError::InvalidCxrle);
                            },
                        }
                    } else if bytes_eq(&kv.0, 3, 71, 101, 110, 0) {
                        match parse_i64_exec(&kv.1) {
                            Some(g) => {
                                acc = (acc.0, acc.1, g);
                            },
                            None => {
                                return Err(RleError::InvalidCxrle);
                            },
                        }
                    } else {
                        proof {
                            assert(cxrle_fold(sparts, i as int, acc) == Err::<
                                (i64, i64, i64),
                                RleError,
                            >(RleError::UnknownCxrleKey));
                        }
                        return Err(RleError::UnknownCxrleKey);
                    }
                },
            }
        }
        i = i + 1;
    }
    Ok(acc)
}

/// The state of the content scanner: the rows of cells collected so
/// far, a pending run count, and whether the terminating `!` was seen.
pub struct ScanState {
    /// The rows of cell states, top RLE row first.
    pub rows: Seq<Seq<u8>>,
    /// A run count waiting for its tag.
    pub pending: Option<u64>,
    /// True once `!` ended the pattern.
    pub done: bool,
}

/// The scanner's starting state: one empty row.
pub open spec fn init_scan() -> ScanState {
    ScanState { rows: seq![Seq::empty()], pending: None, done: false }
}

/// The run count a pending state denotes: the stored count, or one.
pub open spec fn count_of(st: ScanState) -> nat {
    match st.pending {
        Some(v) => v as nat,
        None => 1,
    }
}

/// A run of identical cells.
pub open spec fn rep_cells(c: u8, n: nat) -> Seq<u8> {
    Seq::new(n, |i: int| c)
}

/// Appends a run of cells to the scanner's last row and clears the
/// pending count.
pub open spec fn append_cells(st: ScanState, c: u8) -> ScanState {
    if st.rows.len() == 0 {
        st
    } else {
        ScanState {
            rows: st.rows.update(
                st.rows.len() - 1,
                st.rows.last() + rep_cells(c, count_of(st)),
            ),
            pending: None,
            done: false,
        }
    }
}

/// Appends a number of fresh empty rows and clears the pending count.
pub open spec fn append_rows(st: ScanState, n: nat) -> ScanState {
    ScanState {
        rows: st.rows + Seq::new(n, |i: int| Seq::<u8>::empty()),
        pending: None,
        done: false,
    }
}

/// The first index at or after `j` whose byte is not a digit.
pub open spec fn digit_end(s: Seq<u8>, j: int) -> int
    decreases s.len() - j,
{
    if j < 0 || j >= s.len() {
        s.len() as int
    } else if is_digit(s[j]) {
        digit_end(s, j + 1)
    } else {
        j
    }
}

/// `digit_end` runs to the end of the digit run it was started in.
pub proof fn lemma_digit_end(s: Seq<u8>, j: int)
    requires
        0 <= j <= s.len(),
    ensures
        j <= digit_end(s, j) <= s.len(),
        forall|k: int| j <= k < digit_end(s, j) ==> is_digit(#[trigger] s[k]),
        digit_end(s, j) < s.len() ==> !is_digit(s[digit_end(s, j)]),
    decreases s.len() - j,
{
    if j < s.len() && is_digit(s[j]) {
        lemma_digit_end(s, j + 1);
    }
}

/// Finds the end of the digit run starting at `j`.
pub fn digit_end_exec(s: &Vec<u8>, j: usize) -> (r: usize)
    requires
        j <= s@.len(),
    ensures
        r == digit_end(s@, j as int),
{
    let n: usize = s.len();
    let mut i: usize = j;
    while i < n
        invariant
            j <= i <= n == s@.len(),
            digit_end(s@, j as int) == digit_end(s@, i as int),
            forall|k: int| j <= k < i ==> is_digit(#[trigger] s@[k]),
        decreases n - i,
    {
        if !(48 <= s[i] && s[i] <= 57) {
            return i;
        }
        i = i + 1;
    }
    n
}

/// Scans one content line from position `j`, folding runs of cell
/// tokens, row ends and the pattern terminator into the state.
pub open spec fn scan_line(line: Seq<u8>, j: int, st: ScanState) -> Result<ScanState, RleError>
    decreases line.len() - j,
{
    if j < 0 || j >= line.len() || st.done {
        Ok(st)
    } else {
        let b = line[j];
        if b == 35 {
            // A note line (or trailing comment): ignore the rest.
            Ok(st)
        } else if is_ws(b) {
            scan_line(line, j + 1, st)
        } else if is_digit(b) {
            let e = digit_end(line, j);
            if st.pending is Some {
                Err(RleError::InvalidCount)
            } else {
                let v = digits_val(line.subrange(j, e));
                if v == 0 || v > u64::MAX {
                    Err(RleError::InvalidCount)
                } else {
                    scan_line(
                        line,
                        if e <= j || e > line.len() {
                            j + 1
                        } else {
                            e
                        },
                        ScanState { rows: st.rows, pending: Some(v as u64), done: false },
                    )
                }
            }
        } else if b == 36 {
            scan_line(line, j + 1, append_rows(st, count_of(st)))
        } else if b == 33 {
            Ok(ScanState { rows: st.rows, pending: st.pending, done: true })
        } else if B_LOWER_P <= b <= B_LOWER_Y {
            if j + 1 < line.len() && parse_u8_token(line.subrange(j, j + 2)) is Ok {
                match parse_u8_token(line.subrange(j, j + 2)) {
                    Ok(c) => scan_line(line, j + 2, append_cells(st, c)),
                    Err(_) => Err(RleError::InvalidCellToken),
                }
            } else {
                Err(RleError::InvalidCellToken)
            }
        } else {
            match parse_u8_token(seq![b]) {
                Ok(c) => scan_line(line, j + 1, append_cells(st, c)),
                Err(_) => Err(RleError::InvalidCellToken),
            }
        }
    }
}

/// Scans the content lines from index `k` on.
pub open spec fn scan_lines(lines: Seq<Seq<u8>>, k: int, st: ScanState) -> Result<
    ScanState,
    RleError,
>
    decreases lines.len() - k,
{
    if k < 0 || k >= lines.len() || st.done {
        Ok(st)
    } else {
        match scan_line(lines[k], 0, st) {
            Ok(st2) => scan_lines(lines, k + 1, st2),
            Err(e) => Err(e),
        }
    }
}

/// The exec content scanner's state.
pub struct ScanExec {
    /// The rows of cell states, top RLE row first.
    pub rows: Vec<Vec<u8>>,
    /// A run count waiting for its tag.
    pub pending: Option<u64>,
    /// True once `!` ended the pattern.
    pub done: bool,
}

impl ScanExec {
    /// The mathematical state this scanner stands in.
    pub open spec fn view_state(self) -> ScanState {
        ScanState {
            rows: self.rows@.map_values(|r: Vec<u8>| r@),
            pending: self.pending,
            done: self.done,
        }
    }
}

/// Mapping rows to their contents commutes with appending a row.
pub proof fn lemma_map_push(v: Seq<Vec<u8>>, x: Vec<u8>)
    ensures
        v.push(x).map_values(|r: Vec<u8>| r@) == v.map_values(|r: Vec<u8>| r@).push(x@),
{
    assert(v.push(x).map_values(|r: Vec<u8>| r@) =~= v.map_values(|r: Vec<u8>| r@).push(x@));
}

/// Mapping rows to their contents commutes with dropping the last row.
pub proof fn lemma_map_drop(v: Seq<Vec<u8>>)
    requires
        v.len() >= 1,
    ensures
        v.drop_last().map_values(|r: Vec<u8>| r@) == v.map_values(|r: Vec<u8>| r@).drop_last(),
{
    assert(v.drop_last().map_values(|r: Vec<u8>| r@) =~= v.map_values(
        |r: Vec<u8>| r@,
    ).drop_last());
}

/// Appends `n` copies of a cell to a row.
fn push_cells(row: &mut Vec<u8>, c: u8, n: u64)
    ensures
        final(row)@ == old(row)@ + rep_cells(c, n as nat),
{
    let mut i: u64 = 0;
    while i < n
        invariant
            i <= n,
            row@ == old(row)@ + rep_cells(c, i as nat),
        decreases n - i,
    {
        row.push(c);
        proof {
            assert(row@ =~= old(row)@ + rep_cells(c, (i + 1) as nat));
        }
        i = i + 1;
    }
}

/// Scans one content line, updating the scanner state in place.
pub fn scan_line_exec(line: &Vec<u8>, st: &mut ScanExec) -> (r: Option<RleError>)
    requires
        old(st).view_state().rows.len() >= 1,
    ensures
        match r {
            None => scan_line(line@, 0, old(st).view_state()) == Ok::<ScanState, RleError>(
                final(st).view_state(),
            ) && final(st).view_state().rows.len() >= 1,
            Some(e) => scan_line(line@, 0, old(st).view_state()) == Err::<ScanState, RleError>(e),
        },
{
    let n: usize = line.len();
    let mut j: usize = 0;
    while j < n
        invariant
            j <= n == line@.len(),
            st.view_state().rows.len() >= 1,
            scan_line(line@, 0, old(st).view_state()) == scan_line(
                line@,
                j as int,
                st.view_state(),
            ),
        decreases n - j,
    {
        if st.done {
            proof {
                assert(scan_line(line@, j as int, st.view_state()) == Ok::<ScanState, RleError>(
                    st.view_state(),
                ));
            }
            return None;
        }
        let b: u8 = line[j];
        if b == 35 {
            proof {
                assert(scan_line(line@, j as int, st.view_state()) == Ok::<ScanState, RleError>(
                    st.view_state(),
                ));
            }
            return None;
        } else if b == 32 || b == 9 || b == 13 {
            j = j + 1;
        } else if 48 <= b && b <= 57 {
            let e: usize = digit_end_exec(line, j);
            proof {
                lemma_digit_end(line@, j as int);
            }
            if st.pending.is_some() {
                return Some(RleError::InvalidCount);
            }
            let v: Option<u64> = digits_val_exec(line, j, e, u64::MAX);
            match v {
                None => {
                    return Some(RleError::InvalidCount);
                },
                Some(v) => {
                    if v == 0 {
                        return Some(RleError::InvalidCount);
                    }
                    st.pending = Some(v);
                    j = e;
                },
            }
        } else if b == 36 {
            let cnt: u64 = match st.pending {
                Some(v) => v,
                None => 1,
            };
            let ghost pre = st.view_state();
            let mut k: u64 = 0;
            while k < cnt
                invariant
                    k <= cnt,
                    st.rows@.map_values(|r: Vec<u8>| r@) == pre.rows + Seq::new(
                        k as nat,
                        |i: int| Seq::<u8>::empty(),
                    ),
                    st.pending == pre.pending,
                    st.done == pre.done,
                decreases cnt - k,
            {
                let ghost prev = st.rows@;
                let fresh: Vec<u8> = Vec::new();
                proof {
                    lemma_map_push(prev, fresh);
                }
                st.rows.push(fresh);
                proof {
                    assert(st.rows@.map_values(|r: Vec<u8>| r@) =~= pre.rows + Seq::new(
                        (k + 1) as nat,
                        |i: int| Seq::<u8>::empty(),
                    ));
                }
                k = k + 1;
            }
            st.pending = None;
            proof {
                assert(st.view_state() =~~= append_rows(pre, cnt as nat));
            }
            j = j + 1;
        } else if b == 33 {
            st.done = true;
            j = j + 1;
        } else {
            // A cell-state token, one or two characters wide.
            let cell: u8;
            let ghost pre = st.view_state();
            if 112 <= b && b <= 121 {
                if j + 1 >= n {
                    return Some(RleError::InvalidCellToken);
                }
                let mut tok: Vec<u8> = Vec::new();
                tok.push(b);
                tok.push(line[j + 1]);
                proof {
                    assert(tok@ =~= line@.subrange(j as int, j + 2));
                }
                match parse_u8_bytes(&tok) {
                    Ok(c) => {
                        cell = c;
                        j = j + 2;
                    },
                    Err(_) => {
                        return Some(RleError::InvalidCellToken);
                    },
                }
            } else {
                let mut tok: Vec<u8> = Vec::new();
                tok.push(b);
                proof {
                    assert(tok@ =~= seq![b]);
                }
                match parse_u8_bytes(&tok) {
                    Ok(c) => {
                        cell = c;
                        j = j + 1;
                    },
                    Err(_) => {
                        return Some(RleError::InvalidCellToken);
                    },
                }
            }
            let cnt: u64 = match st.pending {
                Some(v) => v,
                None => 1,
            };
            let ghost prev = st.rows@;
            let mut row: Vec<u8> = match st.rows.pop() {
                Some(rw) => rw,
                None => {
                    proof {
                        assert(false);
                    }
                    Vec::new()
                },
            };
            proof {
                lemma_map_drop(prev);
            }
            push_cells(&mut row, cell, cnt);
            proof {
                lemma_map_push(st.rows@, row);
            }
            st.rows.push(row);
            st.pending = None;
            proof {
                assert(st.view_state().rows =~= append_cells(pre, cell).rows) by {
                    assert(st.rows@.map_values(|r: Vec<u8>| r@) == prev.map_values(
                        |r: Vec<u8>| r@,
                    ).drop_last().push(prev.map_values(|r: Vec<u8>| r@).last() + rep_cells(
                        cell,
                        count_of(pre),
                    )));
                }
                assert(st.view_state() =~~= append_cells(pre, cell));
            }
        }
    }
    None
}

/// Parses a whole token as a signed 64-bit integer.
pub fn parse_i64_exec(s: &Vec<u8>) -> (r: Option<i64>)
    ensures
        r == parse_i64_spec(s@),
{
    let n: usize = s.len();
    if n >= 1 && (s[0] == 45 || s[0] == 43) {
        let neg: bool = s[0] == 45;
        if !check_all_digits(s, 1, n) {
            proof {
                assert(s@.subrange(1, n as int) =~= s@.drop_first());
            }
            return None;
        }
        proof {
            assert(s@.subrange(1, n as int) =~= s@.drop_first());
            assert forall|i: int| 1 <= i < n implies is_digit(#[trigger] s@[i]) by {
                assert(s@.drop_first()[i - 1] == s@[i]);
            }
        }
        let mag: Option<u64> = digits_val_exec(s, 1, n, 0x8000000000000000u64);
        match mag {
            None => None,
            Some(v) => {
                if neg {
                    if v == 0x8000000000000000u64 {
                        Some(i64::MIN)
                    } else {
                        Some(-(v as i64))
                    }
                } else {
                    if v <= i64::MAX as u64 {
                        Some(v as i64)
                    } else {
                        None
                    }
                }
            },
        }
    } else {
        if !check_all_digits(s, 0, n) {
            proof {
                assert(s@.subrange(0, n as int) =~= s@);
            }
            return None;
        }
        proof {
            assert(s@.subrange(0, n as int) =~= s@);
        }
        let mag: Option<u64> = digits_val_exec(s, 0, n, i64::MAX as u64);
        match mag {
            None => None,
            Some(v) => Some(v as i64),
        }
    }
}

/// Copies a byte range out of a vector.
fn vec_subrange(v: &Vec<u8>, from: usize, until: usize) -> (r: Vec<u8>)
    requires
        from <= until <= v@.len(),
    ensures
        r@ == v@.subrange(from as int, until as int),
{
    let mut r: Vec<u8> = Vec::new();
    let mut i: usize = from;
    while i < until
        invariant
            from <= i <= until <= v@.len(),
            r@ == v@.subrange(from as int, i as int),
        decreases until - i,
    {
        r.push(v[i]);
        proof {
            assert(r@ =~= v@.subrange(from as int, i + 1));
        }
        i = i + 1;
    }
    r
}

/// Scans the note and blank lines before the header, collecting the
/// CXRLE metadata, and stops at the header line; the remaining lines
/// form the content block.
pub open spec fn spec_find_header(
    lines: Seq<Seq<u8>>,
    i: int,
    cxrle: Option<(i64, i64, i64)>,
) -> Result<((i64, i64, Option<Seq<u8>>), Option<(i64, i64, i64)>, int), RleError>
    decreases lines.len() - i,
{
    if i < 0 || i >= lines.len() {
        Err(RleError::MissingHeader)
    } else {
        let t = trim_spec(lines[i]);
        if t.len() == 0 {
            spec_find_header(lines, i + 1, cxrle)
        } else if t[0] == 35 {
            let note = t.subrange(1, t.len() as int);
            if note.len() >= 6 && note.subrange(0, 6) == cxrle_tag() {
                if cxrle is Some {
                    Err(RleError::MultipleCxrle)
                } else {
                    match spec_parse_cxrle(note.subrange(6, note.len() as int)) {
                        Ok(c) => spec_find_header(lines, i + 1, Some(c)),
                        Err(e) => Err(e),
                    }
                }
            } else {
                spec_find_header(lines, i + 1, cxrle)
            }
        } else if t[0] == 120 {
            match spec_parse_header(t) {
                Some(h) => Ok((h, cxrle, i + 1)),
                None => Err(RleError::InvalidHeader),
            }
        } else {
            Err(RleError::MissingHeader)
        }
    }
}

/// A decoded RLE pattern: the position of its top-left cell, the
/// generation count, the rule name, and the rows of cell states (top
/// RLE row first; the tree's Y axis runs the other way).
pub struct RleModel {
    /// The X coordinate of the leftmost cell.
    pub x0: int,
    /// The tree Y coordinate of the first (topmost) RLE row.
    pub y0: int,
    /// The number of generations already simulated.
    pub gen: int,
    /// The rule name, when the header gave one.
    pub rule: Option<Seq<u8>>,
    /// The rows of cell states.
    pub rows: Seq<Seq<u8>>,
}

/// The cell state a decoded pattern assigns to the signed position `p`:
/// row `i` of the pattern lies at tree Y coordinate `y0 - i`, and cell
/// `j` of a row at tree X coordinate `x0 + j`; every other position
/// holds the default state.
pub open spec fn grid_cell(rows: Seq<Seq<u8>>, x0: int, y0: int, p: Seq<int>) -> u8 {
    let j = p[0] - x0;
    let i = y0 - p[1];
    if 0 <= i < rows.len() && 0 <= j < rows[i].len() {
        rows[i][j]
    } else {
        0
    }
}

/// True when every cell of the pattern lies at coordinates the tree can
/// address.
pub open spec fn rows_fit(rows: Seq<Seq<u8>>, x0: int, y0: int) -> bool {
    forall|i: int|
        0 <= i < rows.len() ==> y0 - i >= i64::MIN as int && x0 + (#[trigger] rows[i]).len() - 1
            <= i64::MAX as int
}

/// Decodes a whole RLE file, as bytes, into a pattern model.
pub open spec fn spec_from_rle_bytes(bytes: Seq<u8>) -> Result<RleModel, RleError> {
    let lines = split_on(bytes, 10);
    match spec_find_header(lines, 0, None) {
        Err(e) => Err(e),
        Ok(h) => match scan_lines(lines, h.2, init_scan()) {
            Err(e) => Err(e),
            Ok(st) => {
                let px = match h.1 {
                    Some(c) => c.0,
                    None => 0,
                };
                let py = match h.1 {
                    Some(c) => c.1,
                    None => 0,
                };
                let gen = match h.1 {
                    Some(c) => c.2,
                    None => 0,
                };
                if py == i64::MIN {
                    Err(RleError::PositionOutOfRange)
                } else if rows_fit(st.rows, px as int, -(py as int) - 1) {
                    Ok(
                        RleModel {
                            x0: px as int,
                            y0: -(py as int) - 1,
                            gen: gen as int,
                            rule: (h.0).2,
                            rows: st.rows,
                        },
                    )
                } else {
                    Err(RleError::PositionOutOfRange)
                }
            },
        },
    }
}

/// Decodes a whole RLE file, as text.
pub open spec fn spec_rle_decode(s: Seq<char>) -> Result<RleModel, RleError> {
    if vstd::utf8::is_ascii_chars(s) {
        spec_from_rle_bytes(ascii_bytes(s))
    } else {
        Err(RleError::NotAscii)
    }
}

/// The message text of each decoding error.
pub open spec fn error_text(e: RleError) -> Seq<char> {
    match e {
        RleError::NotAscii => "RLE patterns must be ASCII text"@,
        RleError::MissingHeader => "Missing RLE header"@,
        RleError::MultipleCxrle => "Multiple CXRLE headers"@,
        RleError::InvalidHeader => "Invalid RLE header"@,
        RleError::InvalidCxrle => "Invalid CXRLE value"@,
        RleError::UnknownCxrleKey => "Unknown CXRLE string"@,
        RleError::InvalidCount => "Invalid RLE content"@,
        RleError::InvalidCellToken => "Cell state out of range"@,
        RleError::PositionOutOfRange => "Pattern position out of range"@,
    }
}

/// Returns the message for a decoding error.
pub fn rle_error_message(e: RleError) -> (r: String)
    ensures
        r@ == error_text(e),
{
    match e {
        RleError::NotAscii => String::from_str("RLE patterns must be ASCII text"),
        RleError::MissingHeader => String::from_str("Missing RLE header"),
        RleError::MultipleCxrle => String::from_str("Multiple CXRLE headers"),
        RleError::InvalidHeader => String::from_str("Invalid RLE header"),
        RleError::InvalidCxrle => String::from_str("Invalid CXRLE value"),
        RleError::UnknownCxrleKey => String::from_str("Unknown CXRLE string"),
        RleError::InvalidCount => String::from_str("Invalid RLE content"),
        RleError::InvalidCellToken => String::from_str("Cell state out of range"),
        RleError::PositionOutOfRange => String::from_str("Pattern position out of range"),
    }
}

/// A cellular automaton: a two-dimensional tree of cells together with
/// its node cache, the number of generations already simulated, and the
/// rule name its pattern file declared.
pub struct NdAutomaton {
    /// The interning pool the tree's nodes live in.
    pub cache: NdTreeCache,
    /// The grid of cells.
    pub tree: NdTree,
    /// The number of generations already simulated.
    pub generations: i64,
    /// The rule name from the pattern header, when one was given.
    pub rule: Option<Vec<u8>>,
}

impl NdAutomaton {
    /// An automaton is valid when its tree and cache agree on two
    /// dimensions.
    pub open spec fn wf(self) -> bool {
        &&& self.cache.wf()
        &&& self.cache.ndim == 2
        &&& self.tree.wf()
        &&& self.tree.spec_ndim() == 2
    }

    /// Returns a new empty two-dimensional automaton.
    pub fn new() -> (r: NdAutomaton)
        ensures
            r.wf(),
            r.generations == 0,
            forall|p: Seq<int>| r.tree.cell(p) == 0,
    {
        let mut cache = NdTreeCache::new(2);
        let tree = NdTree::new(&mut cache);
        NdAutomaton { cache, tree, generations: 0, rule: None }
    }
}

/// The partially written pattern: only the cells before row `r`, or in
/// row `r` before column `c`, have been copied into the tree.
pub open spec fn grid_prefix(
    rows: Seq<Seq<u8>>,
    x0: int,
    y0: int,
    r: int,
    c: int,
    p: Seq<int>,
) -> u8 {
    let j = p[0] - x0;
    let i = y0 - p[1];
    if 0 <= i < rows.len() && 0 <= j < rows[i].len() && (i < r || (i == r && j < c)) {
        rows[i][j]
    } else {
        0
    }
}

/// Writes the rows of a decoded pattern into a fresh tree.
fn apply_rows(rows: &Vec<Vec<u8>>, x0: i64, y0: i64) -> (res: (NdTreeCache, NdTree))
    requires
        rows_fit(rows@.map_values(|rw: Vec<u8>| rw@), x0 as int, y0 as int),
    ensures
        res.0.wf(),
        res.0.ndim == 2,
        res.1.wf(),
        res.1.spec_ndim() == 2,
        forall|p: Seq<int>|
            p.len() == 2 ==> res.1.cell(p) == grid_cell(
                rows@.map_values(|rw: Vec<u8>| rw@),
                x0 as int,
                y0 as int,
                p,
            ),
{
    let ghost rv = rows@.map_values(|rw: Vec<u8>| rw@);
    let mut cache: NdTreeCache = NdTreeCache::new(2);
    let mut tree: NdTree = NdTree::new(&mut cache);
    let nr: usize = rows.len();
    let mut r: usize = 0;
    proof {
        assert(forall|p: Seq<int>|
            p.len() == 2 ==> #[trigger] tree.cell(p) == grid_prefix(
                rv,
                x0 as int,
                y0 as int,
                0,
                0,
                p,
            ));
    }
    while r < nr
        invariant
            r <= nr == rows@.len(),
            rv == rows@.map_values(|rw: Vec<u8>| rw@),
            rows_fit(rv, x0 as int, y0 as int),
            cache.wf(),
            cache.ndim == 2,
            tree.wf(),
            tree.spec_ndim() == 2,
            forall|p: Seq<int>|
                p.len() == 2 ==> #[trigger] tree.cell(p) == grid_prefix(
                    rv,
                    x0 as int,
                    y0 as int,
                    r as int,
                    0,
                    p,
                ),
        decreases nr - r,
    {
        let nc: usize = rows[r].len();
        let mut c: usize = 0;
        proof {
            assert(rv[r as int] == rows@[r as int]@);
        }
        while c < nc
            invariant
                c <= nc,
                r < nr == rows@.len(),
                nc == rows@[r as int]@.len(),
                rv == rows@.map_values(|rw: Vec<u8>| rw@),
                rv[r as int] == rows@[r as int]@,
                rows_fit(rv, x0 as int, y0 as int),
                cache.wf(),
                cache.ndim == 2,
                tree.wf(),
                tree.spec_ndim() == 2,
                forall|p: Seq<int>|
                    p.len() == 2 ==> #[trigger] tree.cell(p) == grid_prefix(
                        rv,
                        x0 as int,
                        y0 as int,
                        r as int,
                        c as int,
                        p,
                    ),
            decreases nc - c,
        {
            proof {
                assert(y0 - r >= i64::MIN as int && x0 + rv[r as int].len() - 1
                    <= i64::MAX as int);
            }
            let px: i64 = ((x0 as i128) + (c as i128)) as i64;
            let py: i64 = ((y0 as i128) - (r as i128)) as i64;
            let mut comps: Vec<i64> = Vec::new();
            comps.push(px);
            comps.push(py);
            let pos: BigVec = NdVec::from_components(comps);
            proof {
                assert(pos@ =~= seq![x0 + c as int, y0 - r as int]);
            }
            let cell: u8 = rows[r][c];
            let new_tree: NdTree = tree.set_cell(&mut cache, &pos, cell);
            proof {
                let ghost posi = seq![x0 + c as int, y0 - r as int];
                assert forall|p: Seq<int>| p.len() == 2 implies #[trigger] new_tree.cell(p)
                    == grid_prefix(rv, x0 as int, y0 as int, r as int, c + 1, p) by {
                    let j = p[0] - x0;
                    let i = y0 - p[1];
                    if p == posi {
                        assert(i == r && j == c);
                        assert(new_tree.cell(p) == cell);
                        assert(rv[r as int][c as int] == cell);
                    } else {
                        assert(new_tree.cell(p) == tree.cell(p));
                        if i == r && j == c {
                            assert(p[0] == x0 + c && p[1] == y0 - r);
                            assert(p =~= posi);
                            assert(false);
                        }
                    }
                }
            }
            tree = new_tree;
            c = c + 1;
        }
        proof {
            assert forall|p: Seq<int>| p.len() == 2 implies #[trigger] tree.cell(p)
                == grid_prefix(rv, x0 as int, y0 as int, r + 1, 0, p) by {
                assert(tree.cell(p) == grid_prefix(
                    rv,
                    x0 as int,
                    y0 as int,
                    r as int,
                    nc as int,
                    p,
                ));
            }
        }
        r = r + 1;
    }
    proof {
        assert forall|p: Seq<int>| p.len() == 2 implies #[trigger] tree.cell(p) == grid_cell(
            rv,
            x0 as int,
            y0 as int,
            p,
        ) by {
            assert(tree.cell(p) == grid_prefix(rv, x0 as int, y0 as int, nr as int, 0, p));
        }
    }
    (cache, tree)
}

/// Scans lines until the header, returning the parsed header, any
/// CXRLE metadata, and the index of the first content line.
fn find_header_exec(lines: &Vec<Vec<u8>>) -> (r: Result<
    ((i64, i64, Option<Vec<u8>>), Option<(i64, i64, i64)>, usize),
    RleError,
>)
    ensures
        ({
            let sl = lines@.map_values(|v: Vec<u8>| v@);
            match r {
                Ok(h) => spec_find_header(sl, 0, None) matches Ok(sh) && (sh.0).0 == (h.0).0 && (
                sh.0).1 == (h.0).1 && (match ((h.0).2, (sh.0).2) {
                    (Some(a), Some(b)) => a@ == b,
                    (None, None) => true,
                    _ => false,
                }) && sh.1 == h.1 && sh.2 == h.2 as int,
                Err(e) => spec_find_header(sl, 0, None) == Err::<
                    ((i64, i64, Option<Seq<u8>>), Option<(i64, i64, i64)>, int),
                    RleError,
                >(e),
            }
        }),
{
    let ghost sl = lines@.map_values(|v: Vec<u8>| v@);
    proof {
        assert(forall|t: int| 0 <= t < lines@.len() ==> #[trigger] lines@[t]@ == sl[t]);
    }
    let nl: usize = lines.len();
    let mut cxrle: Option<(i64, i64, i64)> = None;
    let mut li: usize = 0;
    while li < nl
        invariant
            li <= nl == lines@.len(),
            sl == lines@.map_values(|v: Vec<u8>| v@),
            forall|t: int| 0 <= t < lines@.len() ==> #[trigger] lines@[t]@ == sl[t],
            spec_find_header(sl, 0, None) == spec_find_header(sl, li as int, cxrle),
        decreases nl - li,
    {
        let t: Vec<u8> = trim_exec(&lines[li]);
        if t.len() == 0 {
            li = li + 1;
        } else if t[0] == 35 {
            let note: Vec<u8> = vec_subrange(&t, 1, t.len());
            let is_cxrle: bool = if note.len() >= 6 {
                note[0] == 67 && note[1] == 88 && note[2] == 82 && note[3] == 76 && note[4] == 69
                    && note[5] == 32
            } else {
                false
            };
            proof {
                if note@.len() >= 6 {
                    assert((note@.subrange(0, 6) == cxrle_tag()) == (note@[0] == 67 && note@[1]
                        == 88 && note@[2] == 82 && note@[3] == 76 && note@[4] == 69 && note@[5]
                        == 32)) by {
                        if note@[0] == 67 && note@[1] == 88 && note@[2] == 82 && note@[3] == 76
                            && note@[4] == 69 && note@[5] == 32 {
                            assert(note@.subrange(0, 6) =~= cxrle_tag());
                        } else {
                            if note@.subrange(0, 6) == cxrle_tag() {
                                assert(note@[0] == note@.subrange(0, 6)[0]);
                                assert(note@[1] == note@.subrange(0, 6)[1]);
                                assert(note@[2] == note@.subrange(0, 6)[2]);
                                assert(note@[3] == note@.subrange(0, 6)[3]);
                                assert(note@[4] == note@.subrange(0, 6)[4]);
                                assert(note@[5] == note@.subrange(0, 6)[5]);
                            }
                        }
                    }
                }
            }
            if is_cxrle {
                if cxrle.is_some() {
                    return Err(RleError::MultipleCxrle);
                }
                let rest: Vec<u8> = vec_subrange(&note, 6, note.len());
                match parse_cxrle(&rest) {
                    Ok(c) => {
                        cxrle = Some(c);
                        li = li + 1;
                    },
                    Err(e) => {
                        return Err(e);
                    },
                }
            } else {
                li = li + 1;
            }
        } else if t[0] == 120 {
            match parse_header(&t) {
                Some(h) => {
                    return Ok((h, cxrle, li + 1));
                },
                None => {
                    return Err(RleError::InvalidHeader);
                },
            }
        } else {
            return Err(RleError::MissingHeader);
        }
    }
    Err(RleError::MissingHeader)
}

/// Decodes a Golly Extended RLE pattern into a two-dimensional
/// automaton.  The decoded tree holds exactly the pattern's rows,
/// reflected so that the first RLE row sits at the highest Y
/// coordinate; the generation count and rule name come from the
/// headers.
pub fn rle_decode(s: &str) -> (r: Result<NdAutomaton, String>)
    ensures
        match spec_rle_decode(s@) {
            Err(e) => r matches Err(m) && m@ == error_text(e),
            Ok(m) => r matches Ok(a) && a.wf() && a.generations == m.gen && (match (
                a.rule,
                m.rule,
            ) {
                (Some(ar), Some(mr)) => ar@ == mr,
                (None, None) => true,
                _ => false,
            }) && (forall|p: Seq<int>|
                p.len() == 2 ==> a.tree.cell(p) == grid_cell(m.rows, m.x0, m.y0, p)),
        },
{
    let bytes: Vec<u8> = match to_ascii_bytes(s) {
        None => {
            return Err(rle_error_message(RleError::NotAscii));
        },
        Some(b) => b,
    };
    let lines: Vec<Vec<u8>> = split_on_exec(&bytes, 10);
    let ghost slines = split_on(bytes@, 10);
    proof {
        assert(forall|t: int|
            0 <= t < lines@.len() ==> #[trigger] lines@[t]@ == lines@.map_values(
                |v: Vec<u8>| v@,
            )[t]);
    }
    let nl: usize = lines.len();
    let found: ((i64, i64, Option<Vec<u8>>), Option<(i64, i64, i64)>, usize) =
        match find_header_exec(&lines) {
        Ok(h) => h,
        Err(e) => {
            return Err(rle_error_message(e));
        },
    };
    let header: (i64, i64, Option<Vec<u8>>) = found.0;
    let cxrle: Option<(i64, i64, i64)> = found.1;
    let li: usize = found.2;
    // Content block.
    let mut st: ScanExec = ScanExec { rows: Vec::new(), pending: None, done: false };
    st.rows.push(Vec::new());
    proof {
        assert(st.view_state().rows =~= init_scan().rows);
        assert(st.view_state() =~~= init_scan());
    }
    let ghost st0 = init_scan();
    let mut li2: usize = li;
    if li2 > nl {
        li2 = nl;
    }
    while li2 < nl && !st.done
        invariant
            li2 <= nl == lines@.len(),
            slines == split_on(bytes@, 10),
            slines == lines@.map_values(|v: Vec<u8>| v@),
            forall|t: int| 0 <= t < lines@.len() ==> #[trigger] lines@[t]@ == slines[t],
            st.view_state().rows.len() >= 1,
            st0 == init_scan(),
            spec_find_header(slines, 0, None) matches Ok(shh) && shh.2 == li as int,
            scan_lines(slines, li as int, st0) == scan_lines(
                slines,
                li2 as int,
                st.view_state(),
            ),
            vstd::utf8::is_ascii_chars(s@),
            bytes@ == ascii_bytes(s@),
        decreases nl - li2,
    {
        let ghost pre = st.view_state();
        let line_ref: &Vec<u8> = &lines[li2];
        match scan_line_exec(line_ref, &mut st) {
            None => {
                li2 = li2 + 1;
            },
            Some(e) => {
                proof {
                    assert(scan_lines(slines, li2 as int, pre) == Err::<ScanState, RleError>(e));
                }
                return Err(rle_error_message(e));
            },
        }
    }
    proof {
        assert(scan_lines(slines, li2 as int, st.view_state()) == Ok::<ScanState, RleError>(
            st.view_state(),
        ));
        assert(scan_lines(slines, li as int, st0) == Ok::<ScanState, RleError>(
            st.view_state(),
        ));
    }
    let (px, py, gen): (i64, i64, i64) = match cxrle {
        Some(c) => c,
        None => (0, 0, 0),
    };
    if py == i64::MIN {
        return Err(rle_error_message(RleError::PositionOutOfRange));
    }
    let y0: i64 = -py - 1;
    // Check that every cell lies at an addressable coordinate.
    let ghost rv = st.rows@.map_values(|rw: Vec<u8>| rw@);
    let ghost sh = (spec_find_header(slines, 0, None))->Ok_0;
    let ghost model = RleModel {
        x0: px as int,
        y0: y0 as int,
        gen: gen as int,
        rule: (sh.0).2,
        rows: rv,
    };
    proof {
        assert(spec_from_rle_bytes(bytes@) == (if rows_fit(rv, px as int, y0 as int) {
            Ok::<RleModel, RleError>(model)
        } else {
            Err::<RleModel, RleError>(RleError::PositionOutOfRange)
        }));
    }
    let nrows: usize = st.rows.len();
    let mut ri: usize = 0;
    while ri < nrows
        invariant
            ri <= nrows == st.rows@.len(),
            rv == st.rows@.map_values(|rw: Vec<u8>| rw@),
            vstd::utf8::is_ascii_chars(s@),
            bytes@ == ascii_bytes(s@),
            spec_from_rle_bytes(bytes@) == (if rows_fit(rv, px as int, y0 as int) {
                Ok::<RleModel, RleError>(model)
            } else {
                Err::<RleModel, RleError>(RleError::PositionOutOfRange)
            }),
            forall|i: int|
                0 <= i < ri ==> y0 - i >= i64::MIN as int && px + (#[trigger] rv[i]).len() - 1
                    <= i64::MAX as int,
        decreases nrows - ri,
    {
        proof {
            assert(rv[ri as int] == st.rows@[ri as int]@);
        }
        let ok_y: bool = (y0 as i128) - (ri as i128) >= i64::MIN as i128;
        let rl: usize = st.rows[ri].len();
        let ok_x: bool = rl == 0 || (px as i128) + (rl as i128) - 1 <= i64::MAX as i128;
        if !(ok_y && ok_x) {
            proof {
                assert(!rows_fit(rv, px as int, y0 as int));
            }
            return Err(rle_error_message(RleError::PositionOutOfRange));
        }
        ri = ri + 1;
    }
    proof {
        assert(rows_fit(rv, px as int, y0 as int));
    }
    let (cache, tree): (NdTreeCache, NdTree) = apply_rows(&st.rows, px, y0);
    let rule: Option<Vec<u8>> = header.2;
    Ok(NdAutomaton { cache, tree, generations: gen, rule })
}

/// The decimal digits of a non-negative number.
pub open spec fn dec_u(n: int) -> Seq<u8>
    decreases n,
{
    if n < 10 {
        seq![(48 + (if n >= 0 {
            n
        } else {
            0
        })) as u8]
    } else {
        dec_u(n / 10) + seq![(48 + n % 10) as u8]
    }
}

/// The decimal digits of a signed number, with a leading minus sign
/// when negative.
pub open spec fn dec_i(n: int) -> Seq<u8> {
    if n < 0 {
        seq![45u8] + dec_u(-n)
    } else {
        dec_u(n)
    }
}

/// Appends the decimal digits of a non-negative number.
pub fn push_dec_u(out: &mut Vec<u8>, n: u64)
    ensures
        final(out)@ == old(out)@ + dec_u(n as int),
    decreases n,
{
    if n < 10 {
        out.push(48 + (n as u8));
        proof {
            assert(final(out)@ =~= old(out)@ + dec_u(n as int));
        }
    } else {
        push_dec_u(out, n / 10);
        out.push(48 + ((n % 10) as u8));
        proof {
            assert(final(out)@ =~= old(out)@ + dec_u(n as int));
        }
    }
}

/// Appends the decimal digits of a non-negative 128-bit number.
pub fn push_dec_u128(out: &mut Vec<u8>, n: u128)
    ensures
        final(out)@ == old(out)@ + dec_u(n as int),
    decreases n,
{
    if n < 10 {
        out.push(48 + (n as u8));
        proof {
            assert(final(out)@ =~= old(out)@ + dec_u(n as int));
        }
    } else {
        push_dec_u128(out, n / 10);
        out.push(48 + ((n % 10) as u8));
        proof {
            assert(final(out)@ =~= old(out)@ + dec_u(n as int));
        }
    }
}

/// Appends the decimal digits of a signed number.
pub fn push_dec_i(out: &mut Vec<u8>, n: i64)
    ensures
        final(out)@ == old(out)@ + dec_i(n as int),
{
    if n < 0 {
        out.push(45);
        let mag: u64 = if n == i64::MIN {
            0x8000000000000000u64
        } else {
            (-n) as u64
        };
        push_dec_u(out, mag);
        proof {
            assert(final(out)@ =~= old(out)@ + dec_i(n as int));
        }
    } else {
        push_dec_u(out, n as u64);
    }
}

/// The index just past the run of cells equal to the cell at `x` in row
/// `y`, capped at `x1 + 1`.
pub open spec fn run_end(root: NdTreeNode, y: int, x: int, x1: int) -> int
    decreases x1 - x,
{
    if x >= x1 {
        x1 + 1
    } else if crate::node::centered_cell(root, seq![x + 1, y]) == crate::node::centered_cell(
        root,
        seq![x, y],
    ) {
        run_end(root, y, x + 1, x1)
    } else {
        x + 1
    }
}

/// The run-length encoding of the cells of row `y` from `x` to `x1`.
pub open spec fn emit_row(root: NdTreeNode, y: int, x: int, x1: int) -> Seq<u8>
    decreases x1 - x + 1,
{
    if x > x1 {
        Seq::empty()
    } else {
        let c = crate::node::centered_cell(root, seq![x, y]);
        let e = run_end(root, y, x, x1);
        let run = if e <= x {
            x + 1
        } else if e > x1 + 1 {
            x1 + 1
        } else {
            e
        };
        (if run - x == 1 {
            Seq::<u8>::empty()
        } else {
            dec_u(run - x)
        }) + u8_token(c) + emit_row(root, y, run, x1)
    }
}

/// The last column in `x0..=x1` of row `y` holding a non-default cell,
/// or `x0 - 1` when the whole row is default.
pub open spec fn last_nonzero(root: NdTreeNode, y: int, x0: int, x1: int) -> int
    decreases x1 - x0 + 1,
{
    if x1 < x0 {
        x0 - 1
    } else if crate::node::centered_cell(root, seq![x1, y]) != crate::node::DEFAULT_CELL {
        x1
    } else {
        last_nonzero(root, y, x0, x1 - 1)
    }
}

/// The content block: each row trimmed of its trailing default cells,
/// rows separated by `$` and the pattern ended by `!`.
pub open spec fn emit_rows(root: NdTreeNode, y: int, y0: int, x0: int, x1: int) -> Seq<u8>
    decreases y - y0 + 1,
{
    if y < y0 {
        Seq::empty()
    } else {
        emit_row(root, y, x0, last_nonzero(root, y, x0, x1)) + (if y == y0 {
            seq![33u8]
        } else {
            seq![36u8]
        }) + emit_rows(root, y - 1, y0, x0, x1)
    }
}

/// Finds the end of the run of cells equal to the cell at `x`.
fn run_end_exec(root: &Rc<NdTreeNode>, y: i64, x: i128, x1: i128) -> (r: i128)
    requires
        wf_node(**root),
        (**root).ndim == 2,
        i64::MIN as i128 <= x <= x1 <= i64::MAX as i128,
    ensures
        r == run_end(**root, y as int, x as int, x1 as int),
        x < r <= x1 + 1,
    decreases x1 - x,
{
    if x >= x1 {
        return x1 + 1;
    }
    let mut comps: Vec<i64> = Vec::new();
    comps.push(x as i64);
    comps.push(y);
    let p0: BigVec = NdVec::from_components(comps);
    let mut comps2: Vec<i64> = Vec::new();
    comps2.push((x + 1) as i64);
    comps2.push(y);
    let p1: BigVec = NdVec::from_components(comps2);
    proof {
        assert(p0@ =~= seq![x as int, y as int]);
        assert(p1@ =~= seq![x + 1, y as int]);
    }
    let t0: NdTree = NdTree { root: rc_clone(root) };
    let c0: u8 = t0.get_cell(&p0);
    let c1: u8 = t0.get_cell(&p1);
    if c1 == c0 {
        run_end_exec(root, y, x + 1, x1)
    } else {
        x + 1
    }
}

/// Appends the run-length encoding of row `y` from `x` to `x1`.
fn emit_row_exec(root: &Rc<NdTreeNode>, y: i64, x: i128, x1: i128, out: &mut Vec<u8>)
    requires
        wf_node(**root),
        (**root).ndim == 2,
        i64::MIN as i128 <= x,
        x1 <= i64::MAX as i128,
    ensures
        final(out)@ == old(out)@ + emit_row(**root, y as int, x as int, x1 as int),
    decreases x1 - x + 1,
{
    if x > x1 {
        proof {
            assert(final(out)@ =~= old(out)@ + emit_row(**root, y as int, x as int, x1 as int));
        }
        return ;
    }
    let mut comps: Vec<i64> = Vec::new();
    comps.push(x as i64);
    comps.push(y);
    let p0: BigVec = NdVec::from_components(comps);
    proof {
        assert(p0@ =~= seq![x as int, y as int]);
    }
    let t0: NdTree = NdTree { root: rc_clone(root) };
    let c: u8 = t0.get_cell(&p0);
    let e: i128 = run_end_exec(root, y, x, x1);
    let width: i128 = e - x;
    if width > 1 {
        push_dec_u128(out, width as u128);
    }
    push_u8_token(c, out);
    emit_row_exec(root, y, e, x1, out);
    proof {
        assert(final(out)@ =~= old(out)@ + emit_row(**root, y as int, x as int, x1 as int));
    }
}

/// Finds the last non-default column of row `y`, or `x0 - 1`.
fn last_nonzero_exec(root: &Rc<NdTreeNode>, y: i64, x0: i128, x1: i128) -> (r: i128)
    requires
        wf_node(**root),
        (**root).ndim == 2,
        i64::MIN as i128 <= x0,
        x0 - 1 <= x1 <= i64::MAX as i128,
    ensures
        r == last_nonzero(**root, y as int, x0 as int, x1 as int),
        x0 - 1 <= r <= x1,
    decreases x1 - x0 + 1,
{
    if x1 < x0 {
        return x0 - 1;
    }
    let mut comps: Vec<i64> = Vec::new();
    comps.push(x1 as i64);
    comps.push(y);
    let p0: BigVec = NdVec::from_components(comps);
    proof {
        assert(p0@ =~= seq![x1 as int, y as int]);
    }
    let t0: NdTree = NdTree { root: rc_clone(root) };
    let c: u8 = t0.get_cell(&p0);
    if c != DEFAULT_CELL {
        x1
    } else {
        last_nonzero_exec(root, y, x0, x1 - 1)
    }
}

/// Appends the whole content block for rows `y` down to `y0`.
fn emit_rows_exec(
    root: &Rc<NdTreeNode>,
    y: i128,
    y0: i128,
    x0: i128,
    x1: i128,
    out: &mut Vec<u8>,
)
    requires
        wf_node(**root),
        (**root).ndim == 2,
        i64::MIN as i128 <= x0,
        x0 - 1 <= x1 <= i64::MAX as i128,
        i64::MIN as i128 <= y0,
        y0 - 1 <= y <= i64::MAX as i128,
    ensures
        final(out)@ == old(out)@ + emit_rows(**root, y as int, y0 as int, x0 as int, x1 as int),
    decreases y - y0 + 1,
{
    if y < y0 {
        proof {
            assert(final(out)@ =~= old(out)@ + emit_rows(
                **root,
                y as int,
                y0 as int,
                x0 as int,
                x1 as int,
            ));
        }
        return ;
    }
    let last: i128 = last_nonzero_exec(root, y as i64, x0, x1);
    emit_row_exec(root, y as i64, x0, last, out);
    out.push(
        if y == y0 {
            33
        } else {
            36
        },
    );
    emit_rows_exec(root, y - 1, y0, x0, x1, out);
    proof {
        assert(final(out)@ =~= old(out)@ + emit_rows(
            **root,
            y as int,
            y0 as int,
            x0 as int,
            x1 as int,
        ));
    }
}

/// True when the rectangle `[x0, x1] * [y0, y1]` is the tight bounding
/// box of the tree's non-default cells.
pub open spec fn is_tight_bbox(root: NdTreeNode, x0: int, x1: int, y0: int, y1: int) -> bool {
    &&& (forall|p: Seq<int>|
        p.len() == 2 && crate::node::centered_cell(root, p) != crate::node::DEFAULT_CELL ==> x0
            <= #[trigger] p[0] <= x1 && y0 <= p[1] <= y1)
    &&& (exists|p: Seq<int>|
        p.len() == 2 && crate::node::centered_cell(root, p) != crate::node::DEFAULT_CELL
            && #[trigger] p[0] == x0)
    &&& (exists|p: Seq<int>|
        p.len() == 2 && crate::node::centered_cell(root, p) != crate::node::DEFAULT_CELL
            && #[trigger] p[0] == x1)
    &&& (exists|p: Seq<int>|
        p.len() == 2 && crate::node::centered_cell(root, p) != crate::node::DEFAULT_CELL
            && #[trigger] p[1] == y0)
    &&& (exists|p: Seq<int>|
        p.len() == 2 && crate::node::centered_cell(root, p) != crate::node::DEFAULT_CELL
            && #[trigger] p[1] == y1)
}

/// The text of an encoded pattern with the given bounding box: a CXRLE
/// note with the position (and the generation count when non-zero), a
/// header with the width, height and rule, and the content block.
pub open spec fn emit_spec(
    root: NdTreeNode,
    x0: int,
    x1: int,
    y0: int,
    y1: int,
    rule: Option<Seq<u8>>,
    gen: int,
) -> Seq<u8> {
    "#CXRLE Pos="@.map_values(|c: char| c as u8) + dec_i(x0) + seq![44u8] + dec_i(-y1 - 1) + (
    if gen != 0 {
        " Gen="@.map_values(|c: char| c as u8) + dec_i(gen)
    } else {
        Seq::<u8>::empty()
    }) + seq![10u8] + header_text(x1 - x0 + 1, y1 - y0 + 1, rule) + seq![10u8] + emit_rows(
        root,
        y1,
        y0,
        x0,
        x1,
    ) + seq![10u8]
}

/// The header line for the given width, height and rule name.
pub open spec fn header_text(w: int, h: int, rule: Option<Seq<u8>>) -> Seq<u8> {
    "x = "@.map_values(|c: char| c as u8) + dec_i(w) + ", y = "@.map_values(|c: char| c as u8)
        + dec_i(h) + (match rule {
        Some(rl) => ", rule = "@.map_values(|c: char| c as u8) + rl,
        None => Seq::<u8>::empty(),
    })
}

/// The text of an encoded empty pattern.
pub open spec fn empty_emit(rule: Option<Seq<u8>>) -> Seq<u8> {
    header_text(0, 0, rule) + seq![10u8, 33u8, 10u8]
}

/// Appends an ASCII string literal's bytes.
fn push_lit(out: &mut Vec<u8>, s: &str)
    requires
        vstd::utf8::is_ascii_chars(s@),
    ensures
        final(out)@ == old(out)@ + s@.map_values(|c: char| c as u8),
{
    match to_ascii_bytes(s) {
        Some(b) => {
            let n: usize = b.len();
            let mut i: usize = 0;
            while i < n
                invariant
                    i <= n == b@.len(),
                    b@ == ascii_bytes(s@),
                    out@ == old(out)@ + b@.take(i as int),
                decreases n - i,
            {
                out.push(b[i]);
                proof {
                    assert(out@ =~= old(out)@ + b@.take(i + 1));
                }
                i = i + 1;
            }
            proof {
                assert(b@.take(n as int) =~= b@);
                assert(ascii_bytes(s@) =~= s@.map_values(|c: char| c as u8));
            }
        },
        None => {
            proof {
                assert(false);
            }
        },
    }
}

/// Decimal digits of non-negative numbers are ASCII.
pub proof fn lemma_dec_u_ascii(n: int)
    ensures
        lt128(dec_u(n)),
    decreases if n > 0 {
        n
    } else {
        0
    },
{
    if n >= 10 {
        lemma_dec_u_ascii(n / 10);
        assert(forall|i: int|
            0 <= i < dec_u(n / 10).len() ==> #[trigger] dec_u(n / 10)[i] < 128);
    }
}

/// Decimal digits are ASCII.
pub proof fn lemma_dec_ascii(n: int)
    ensures
        lt128(dec_u(n)),
        lt128(dec_i(n)),
{
    lemma_dec_u_ascii(n);
    lemma_dec_u_ascii(-n);
}

/// Cell-state tokens are ASCII.
pub proof fn lemma_token_ascii(v: u8)
    ensures
        lt128(u8_token(v)),
{
}

/// An encoded row is ASCII.
pub proof fn lemma_row_ascii(root: NdTreeNode, y: int, x: int, x1: int)
    ensures
        lt128(emit_row(root, y, x, x1)),
    decreases x1 - x + 1,
{
    if x <= x1 {
        let c = crate::node::centered_cell(root, seq![x, y]);
        let e = run_end(root, y, x, x1);
        let run = if e <= x {
            x + 1
        } else if e > x1 + 1 {
            x1 + 1
        } else {
            e
        };
        lemma_dec_ascii(run - x);
        lemma_token_ascii(c);
        lemma_row_ascii(root, y, run, x1);
    }
}

/// An encoded content block is ASCII.
pub proof fn lemma_rows_ascii(root: NdTreeNode, y: int, y0: int, x0: int, x1: int)
    ensures
        lt128(emit_rows(root, y, y0, x0, x1)),
    decreases y - y0 + 1,
{
    if y >= y0 {
        lemma_row_ascii(root, y, x0, last_nonzero(root, y, x0, x1));
        lemma_rows_ascii(root, y - 1, y0, x0, x1);
    }
}

/// The rule name that the emitter writes: the stored name when it is
/// ASCII, and nothing otherwise.
pub open spec fn emit_rule_of(rule: Option<Vec<u8>>) -> Option<Seq<u8>> {
    match rule {
        Some(v) => if lt128(v@) {
            Some(v@)
        } else {
            None
        },
        None => None,
    }
}

/// The running bounding-box state of the scanner.
struct Bbox {
    /// True once a non-default cell was seen.
    found: bool,
    /// The least X coordinate seen.
    minx: i64,
    /// The greatest X coordinate seen.
    maxx: i64,
    /// The least Y coordinate seen.
    miny: i64,
    /// The greatest Y coordinate seen.
    maxy: i64,
}

/// True when `p` was scanned before reaching column `x` of row `y`
/// (rows are scanned bottom to top, columns left to right).
pub open spec fn scanned_before(p: Seq<int>, y: int, x: int) -> bool {
    p[1] < y || (p[1] == y && p[0] < x)
}

/// The scanner's invariant over the already scanned region.
spec fn bbox_inv(tree: NdTree, bb: Bbox, y: int, x: int) -> bool {
    &&& (!bb.found ==> (forall|p: Seq<int>|
        p.len() == 2 && #[trigger] scanned_before(p, y, x) ==> tree.cell(p)
            == crate::node::DEFAULT_CELL))
    &&& (bb.found ==> bb.minx <= bb.maxx && bb.miny <= bb.maxy)
    &&& (bb.found ==> (forall|p: Seq<int>|
        p.len() == 2 && #[trigger] scanned_before(p, y, x) && tree.cell(p)
            != crate::node::DEFAULT_CELL ==> bb.minx <= p[0] <= bb.maxx && bb.miny <= p[1]
            <= bb.maxy))
    &&& (bb.found ==> (exists|p: Seq<int>|
        p.len() == 2 && tree.cell(p) != crate::node::DEFAULT_CELL && #[trigger] p[0]
            == bb.minx))
    &&& (bb.found ==> (exists|p: Seq<int>|
        p.len() == 2 && tree.cell(p) != crate::node::DEFAULT_CELL && #[trigger] p[0]
            == bb.maxx))
    &&& (bb.found ==> (exists|p: Seq<int>|
        p.len() == 2 && tree.cell(p) != crate::node::DEFAULT_CELL && #[trigger] p[1]
            == bb.miny))
    &&& (bb.found ==> (exists|p: Seq<int>|
        p.len() == 2 && tree.cell(p) != crate::node::DEFAULT_CELL && #[trigger] p[1]
            == bb.maxy))
}

/// Scans one row of the tree, widening the bounding box to cover its
/// non-default cells.
#[verifier::rlimit(100)]
fn scan_row(tree: &NdTree, y: i128, half: i128, bb: &mut Bbox)
    requires
        tree.wf(),
        tree.spec_ndim() == 2,
        half == vstd::arithmetic::power2::pow2((tree.root.layer - 1) as nat),
        half <= 0x8000000000000000i128,
        -half <= y < half,
        bbox_inv(*tree, *old(bb), y as int, -half as int),
    ensures
        bbox_inv(*tree, *final(bb), y + 1, -half as int),
{
    let mut x: i128 = -half;
    while x < half
        invariant
            tree.wf(),
            tree.spec_ndim() == 2,
            half <= 0x8000000000000000i128,
            -half <= y < half,
            -half <= x <= half,
            bbox_inv(*tree, *bb, y as int, x as int),
        decreases half - x,
    {
        let cx: i64 = x as i64;
        let cy: i64 = y as i64;
        let mut comps: Vec<i64> = Vec::new();
        comps.push(cx);
        comps.push(cy);
        let pos: BigVec = NdVec::from_components(comps);
        proof {
            assert(pos@ =~= seq![x as int, y as int]);
        }
        let c: u8 = tree.get_cell(&pos);
        let ghost w = seq![x as int, y as int];
        let ghost prev: Bbox = *bb;
        if c != 0 {
            if !bb.found {
                bb.found = true;
                bb.minx = cx;
                bb.maxx = cx;
                bb.miny = cy;
                bb.maxy = cy;
            } else {
                if cx < bb.minx {
                    bb.minx = cx;
                }
                if cx > bb.maxx {
                    bb.maxx = cx;
                }
                if cy < bb.miny {
                    bb.miny = cy;
                }
                if cy > bb.maxy {
                    bb.maxy = cy;
                }
            }
        }
        proof {
            assert(tree.cell(w) == c);
            assert forall|p: Seq<int>|
                p.len() == 2 && #[trigger] scanned_before(p, y as int, x + 1) implies
                scanned_before(p, y as int, x as int) || p =~= w by {
                if !scanned_before(p, y as int, x as int) {
                    assert(p[0] == x as int && p[1] == y as int);
                }
            }
            if !bb.found {
                assert forall|p: Seq<int>|
                    p.len() == 2 && #[trigger] scanned_before(p, y as int, x + 1) implies
                    tree.cell(p) == crate::node::DEFAULT_CELL by {
                    if !scanned_before(p, y as int, x as int) {
                        assert(p =~= w);
                    }
                }
            } else {
                assert forall|p: Seq<int>|
                    p.len() == 2 && #[trigger] scanned_before(p, y as int, x + 1) && tree.cell(p)
                        != crate::node::DEFAULT_CELL implies bb.minx <= p[0] <= bb.maxx
                    && bb.miny <= p[1] <= bb.maxy by {
                    if scanned_before(p, y as int, x as int) {
                        assert(prev.found);
                        assert(prev.minx <= p[0] <= prev.maxx && prev.miny <= p[1]
                            <= prev.maxy);
                    } else {
                        assert(p =~= w);
                    }
                }
                if c != 0 {
                    assert(exists|p: Seq<int>|
                        p.len() == 2 && tree.cell(p) != crate::node::DEFAULT_CELL
                            && #[trigger] p[0] == bb.minx) by {
                        if bb.minx == cx {
                            assert(w.len() == 2 && tree.cell(w) != crate::node::DEFAULT_CELL
                                && w[0] == bb.minx);
                        } else {
                            assert(prev.found && prev.minx == bb.minx);
                        }
                    }
                    assert(exists|p: Seq<int>|
                        p.len() == 2 && tree.cell(p) != crate::node::DEFAULT_CELL
                            && #[trigger] p[0] == bb.maxx) by {
                        if bb.maxx == cx {
                            assert(w.len() == 2 && tree.cell(w) != crate::node::DEFAULT_CELL
                                && w[0] == bb.maxx);
                        } else {
                            assert(prev.found && prev.maxx == bb.maxx);
                        }
                    }
                    assert(exists|p: Seq<int>|
                        p.len() == 2 && tree.cell(p) != crate::node::DEFAULT_CELL
                            && #[trigger] p[1] == bb.miny) by {
                        if bb.miny == cy {
                            assert(w.len() == 2 && tree.cell(w) != crate::node::DEFAULT_CELL
                                && w[1] == bb.miny);
                        } else {
                            assert(prev.found && prev.miny == bb.miny);
                        }
                    }
                    assert(exists|p: Seq<int>|
                        p.len() == 2 && tree.cell(p) != crate::node::DEFAULT_CELL
                            && #[trigger] p[1] == bb.maxy) by {
                        if bb.maxy == cy {
                            assert(w.len() == 2 && tree.cell(w) != crate::node::DEFAULT_CELL
                                && w[1] == bb.maxy);
                        } else {
                            assert(prev.found && prev.maxy == bb.maxy);
                        }
                    }
                }
            }
        }
        x = x + 1;
    }
    proof {
        assert forall|p: Seq<int>|
            p.len() == 2 && #[trigger] scanned_before(p, y + 1, -half as int) implies (
        scanned_before(p, y as int, half as int) || tree.cell(p)
            == crate::node::DEFAULT_CELL) by {
            if !scanned_before(p, y as int, half as int) {
                if p[1] == y as int {
                    assert(p[0] >= half);
                    assert(!(-half <= p[0] < half));
                } else {
                    assert(p[1] == y + 1 && p[0] < -half);
                    assert(!(-half <= p[0] < half));
                }
            }
        }
    }
}

/// Finds the tight bounding box of the tree's non-default cells, or
/// nothing when the tree is empty.
#[verifier::rlimit(100)]
fn scan_bbox(tree: &NdTree) -> (r: Option<(i64, i64, i64, i64)>)
    requires
        tree.wf(),
        tree.spec_ndim() == 2,
    ensures
        match r {
            None => forall|p: Seq<int>|
                p.len() == 2 ==> #[trigger] tree.cell(p) == crate::node::DEFAULT_CELL,
            Some(bb) => is_tight_bbox(*tree.root, bb.0 as int, bb.1 as int, bb.2 as int, bb.3 as int)
                && bb.0 <= bb.1 && bb.2 <= bb.3,
        },
{
    let layer: usize = tree.root.layer;
    let half: i128 = pow2_u64_i128(layer - 1);
    proof {
        crate::node::lemma_pow2_le_mono((layer - 1) as nat, 63);
        vstd::arithmetic::power2::lemma2_to64();
        vstd::arithmetic::power2::lemma2_to64_rest();
    }
    let mut bb: Bbox = Bbox { found: false, minx: 0, maxx: 0, miny: 0, maxy: 0 };
    let mut y: i128 = -half;
    while y < half
        invariant
            tree.wf(),
            tree.spec_ndim() == 2,
            half == vstd::arithmetic::power2::pow2((tree.root.layer - 1) as nat),
            half <= 0x8000000000000000i128,
            -half <= y <= half,
            bbox_inv(*tree, bb, y as int, -half as int),
        decreases half - y,
    {
        scan_row(tree, y, half, &mut bb);
        y = y + 1;
    }
    proof {
        assert(y == half);
        assert(bbox_inv(*tree, bb, half as int, -(half as int)));
        if !bb.found {
            assert forall|p: Seq<int>| p.len() == 2 implies #[trigger] tree.cell(p)
                == crate::node::DEFAULT_CELL by {
                if scanned_before(p, half as int, -(half as int)) {
                    assert(tree.cell(p) == crate::node::DEFAULT_CELL);
                } else {
                    assert(p[1] >= half);
                    assert(!(-(half as int) <= p[1] < half as int));
                    assert(tree.cell(p) == crate::node::DEFAULT_CELL);
                }
            }
        } else {
            assert forall|p: Seq<int>|
                p.len() == 2 && #[trigger] tree.cell(p) != crate::node::DEFAULT_CELL implies
                bb.minx <= p[0] <= bb.maxx && bb.miny <= p[1] <= bb.maxy by {
                if scanned_before(p, half as int, -(half as int)) {
                } else {
                    assert(p[1] >= half);
                    assert(!(-(half as int) <= p[1] < half as int));
                    assert(tree.cell(p) == crate::node::DEFAULT_CELL);
                }
            }
            let w1 = choose|p: Seq<int>|
                p.len() == 2 && tree.cell(p) != crate::node::DEFAULT_CELL && #[trigger] p[0]
                    == bb.minx;
            assert(crate::node::centered_cell(*tree.root, w1) != crate::node::DEFAULT_CELL
                && w1.len() == 2 && w1[0] == bb.minx as int);
            let w2 = choose|p: Seq<int>|
                p.len() == 2 && tree.cell(p) != crate::node::DEFAULT_CELL && #[trigger] p[0]
                    == bb.maxx;
            assert(crate::node::centered_cell(*tree.root, w2) != crate::node::DEFAULT_CELL
                && w2.len() == 2 && w2[0] == bb.maxx as int);
            let w3 = choose|p: Seq<int>|
                p.len() == 2 && tree.cell(p) != crate::node::DEFAULT_CELL && #[trigger] p[1]
                    == bb.miny;
            assert(crate::node::centered_cell(*tree.root, w3) != crate::node::DEFAULT_CELL
                && w3.len() == 2 && w3[1] == bb.miny as int);
            let w4 = choose|p: Seq<int>|
                p.len() == 2 && tree.cell(p) != crate::node::DEFAULT_CELL && #[trigger] p[1]
                    == bb.maxy;
            assert(crate::node::centered_cell(*tree.root, w4) != crate::node::DEFAULT_CELL
                && w4.len() == 2 && w4[1] == bb.maxy as int);
            assert forall|p: Seq<int>|
                p.len() == 2 && crate::node::centered_cell(*tree.root, p)
                    != crate::node::DEFAULT_CELL implies bb.minx <= #[trigger] p[0] <= bb.maxx
                && bb.miny <= p[1] <= bb.maxy by {
                assert(tree.cell(p) == crate::node::centered_cell(*tree.root, p));
            }
            assert(is_tight_bbox(
                *tree.root,
                bb.minx as int,
                bb.maxx as int,
                bb.miny as int,
                bb.maxy as int,
            ));
        }
    }
    if bb.found {
        Some((bb.minx, bb.maxx, bb.miny, bb.maxy))
    } else {
        None
    }
}

/// Computes `2^k` widened to 128 bits.
fn pow2_u64_i128(k: usize) -> (r: i128)
    requires
        k <= 63,
    ensures
        r == vstd::arithmetic::power2::pow2(k as nat),
{
    let p: u64 = crate::node::pow2_u64(k);
    p as i128
}

/// Appends the header line for the given width, height and rule name.
fn push_header(out: &mut Vec<u8>, w: u128, h: u128, rule_b: &Option<Vec<u8>>)
    requires
        (match rule_b {
            Some(v) => lt128(v@),
            None => true,
        }),
    ensures
        final(out)@ == old(out)@ + header_text(
            w as int,
            h as int,
            match rule_b {
                Some(v) => Some(v@),
                None => None,
            },
        ),
{
    proof {
        lemma_lit_ascii();
    }
    push_lit(out, "x = ");
    push_dec_u128(out, w);
    push_lit(out, ", y = ");
    push_dec_u128(out, h);
    match rule_b {
        Some(v) => {
            push_lit(out, ", rule = ");
            let n: usize = v.len();
            let mut i: usize = 0;
            let ghost mid = out@;
            while i < n
                invariant
                    i <= n == v@.len(),
                    out@ == mid + v@.take(i as int),
                decreases n - i,
            {
                out.push(v[i]);
                proof {
                    assert(out@ =~= mid + v@.take(i + 1));
                }
                i = i + 1;
            }
            proof {
                assert(v@.take(n as int) =~= v@);
                assert(final(out)@ =~= old(out)@ + header_text(w as int, h as int, Some(v@)));
            }
        },
        None => {
            proof {
                assert(final(out)@ =~= old(out)@ + header_text(
                    w as int,
                    h as int,
                    None,
                ));
            }
        },
    }
}

/// Returns a copy of the rule name when it is plain ASCII.
fn ascii_rule(rule: &Option<Vec<u8>>) -> (r: Option<Vec<u8>>)
    ensures
        (match r {
            Some(v) => Some(v@),
            None => None::<Seq<u8>>,
        }) == emit_rule_of(*rule),
        (match r {
            Some(v) => lt128(v@),
            None => true,
        }),
{
    match rule {
        None => None,
        Some(v) => {
            let n: usize = v.len();
            let mut ok: bool = true;
            let mut i: usize = 0;
            while i < n
                invariant
                    i <= n == v@.len(),
                    ok == (forall|j: int| 0 <= j < i ==> #[trigger] v@[j] < 128),
                decreases n - i,
            {
                if v[i] >= 128 {
                    ok = false;
                }
                i = i + 1;
            }
            if ok {
                Some(vec_subrange(v, 0, n))
            } else {
                None
            }
        },
    }
}

/// Builds the text of an encoded empty pattern.
fn empty_pattern_bytes(rule_b: &Option<Vec<u8>>) -> (out: Vec<u8>)
    requires
        (match rule_b {
            Some(v) => lt128(v@),
            None => true,
        }),
    ensures
        out@ == empty_emit(
            match rule_b {
                Some(v) => Some(v@),
                None => None,
            },
        ),
{
    let mut out: Vec<u8> = Vec::new();
    push_header(&mut out, 0, 0, rule_b);
    out.push(10);
    out.push(33);
    out.push(10);
    proof {
        assert(out@ =~= empty_emit(
            match rule_b {
                Some(v) => Some(v@),
                None => None,
            },
        ));
    }
    out
}

/// Builds the text of an encoded pattern with the given bounding box.
#[verifier::rlimit(100)]
fn pattern_bytes(
    root: &Rc<NdTreeNode>,
    minx: i64,
    maxx: i64,
    miny: i64,
    maxy: i64,
    rule_b: &Option<Vec<u8>>,
    gen: i64,
) -> (out: Vec<u8>)
    requires
        wf_node(**root),
        (**root).ndim == 2,
        minx <= maxx,
        miny <= maxy,
        (match rule_b {
            Some(v) => lt128(v@),
            None => true,
        }),
    ensures
        out@ == emit_spec(
            node_of(*root),
            minx as int,
            maxx as int,
            miny as int,
            maxy as int,
            match rule_b {
                Some(v) => Some(v@),
                None => None,
            },
            gen as int,
        ),
{
    proof {
        lemma_lit_ascii();
    }
    let mut out: Vec<u8> = Vec::new();
    push_lit(&mut out, "#CXRLE Pos=");
    push_dec_i(&mut out, minx);
    out.push(44);
    let negy: i64 = ((-(maxy as i128)) - 1) as i64;
    proof {
        assert(negy as int == -(maxy as int) - 1);
    }
    push_dec_i(&mut out, negy);
    if gen != 0 {
        push_lit(&mut out, " Gen=");
        push_dec_i(&mut out, gen);
    }
    out.push(10);
    let w: u128 = ((maxx as i128) - (minx as i128) + 1) as u128;
    let h: u128 = ((maxy as i128) - (miny as i128) + 1) as u128;
    proof {
        assert(w as int == maxx as int - minx as int + 1);
        assert(h as int == maxy as int - miny as int + 1);
    }
    push_header(&mut out, w, h, rule_b);
    out.push(10);
    emit_rows_exec(root, maxy as i128, miny as i128, minx as i128, maxx as i128, &mut out);
    out.push(10);
    proof {
        assert(out@ =~= emit_spec(
            node_of(*root),
            minx as int,
            maxx as int,
            miny as int,
            maxy as int,
            match rule_b {
                Some(v) => Some(v@),
                None => None,
            },
            gen as int,
        ));
    }
    out
}

impl NdAutomaton {
    /// Encodes this automaton's pattern as Golly Extended RLE: a CXRLE
    /// note with the position of the pattern's bounding box (and the
    /// generation count when non-zero), a header line, and the
    /// run-length-encoded rows from the top of the pattern down.
    pub fn to_rle(&self) -> (r: String)
        requires
            self.wf(),
        ensures
            (forall|p: Seq<int>|
                p.len() == 2 ==> #[trigger] self.tree.cell(p) == crate::node::DEFAULT_CELL)
                ==> r@ == chars_of(empty_emit(emit_rule_of(self.rule))),
            (exists|p: Seq<int>|
                p.len() == 2 && #[trigger] self.tree.cell(p) != crate::node::DEFAULT_CELL) ==> (
            exists|bb: (int, int, int, int)|
                is_tight_bbox(*self.tree.root, bb.0, bb.1, bb.2, bb.3) && r@ == chars_of(
                    emit_spec(
                        *self.tree.root,
                        bb.0,
                        bb.1,
                        bb.2,
                        bb.3,
                        emit_rule_of(self.rule),
                        self.generations as int,
                    ),
                )),
    {
        // Keep the rule name only when it is plain ASCII.
        let rule_b: Option<Vec<u8>> = ascii_rule(&self.rule);
        let ghost srule = emit_rule_of(self.rule);
        match scan_bbox(&self.tree) {
            None => {
                let out: Vec<u8> = empty_pattern_bytes(&rule_b);
                proof {
                    lemma_header_ascii(0, 0, srule);
                }
                ascii_string(&out)
            },
            Some(bb) => {
                let (minx, maxx, miny, maxy): (i64, i64, i64, i64) = bb;
                let out: Vec<u8> = pattern_bytes(
                    &self.tree.root,
                    minx,
                    maxx,
                    miny,
                    maxy,
                    &rule_b,
                    self.generations,
                );
                proof {
                    let wmin = choose|p: Seq<int>|
                        p.len() == 2 && crate::node::centered_cell(*self.tree.root, p)
                            != crate::node::DEFAULT_CELL && #[trigger] p[0] == minx as int;
                    assert(self.tree.cell(wmin) != crate::node::DEFAULT_CELL);
                    lemma_emit_ascii(
                        node_of(self.tree.root),
                        minx as int,
                        maxx as int,
                        miny as int,
                        maxy as int,
                        srule,
                        self.generations as int,
                    );
                }
                ascii_string(&out)
            },
        }
    }
}

/// A whole encoded pattern is ASCII when its rule name is.
pub proof fn lemma_emit_ascii(
    root: NdTreeNode,
    x0: int,
    x1: int,
    y0: int,
    y1: int,
    rule: Option<Seq<u8>>,
    gen: int,
)
    requires
        (match rule {
            Some(v) => lt128(v),
            None => true,
        }),
    ensures
        lt128(emit_spec(root, x0, x1, y0, y1, rule, gen)),
{
    lemma_lit_ascii();
    lemma_dec_ascii(x0);
    lemma_dec_ascii(-y1 - 1);
    lemma_dec_ascii(gen);
    lemma_header_ascii(x1 - x0 + 1, y1 - y0 + 1, rule);
    lemma_rows_ascii(root, y1, y0, x0, x1);
    reveal_strlit("#CXRLE Pos=");
    reveal_strlit(" Gen=");
    let m1 = "#CXRLE Pos="@.map_values(|c: char| c as u8);
    assert forall|i: int| 0 <= i < m1.len() implies #[trigger] m1[i] < 128 by {
        assert(m1[i] == "#CXRLE Pos="@[i] as u8);
    }
    let m2 = " Gen="@.map_values(|c: char| c as u8);
    assert forall|i: int| 0 <= i < m2.len() implies #[trigger] m2[i] < 128 by {
        assert(m2[i] == " Gen="@[i] as u8);
    }
}

/// The emitter's literal pieces are ASCII./// The emitter's literal pieces are ASCII.
pub proof fn lemma_lit_ascii()
    ensures
        vstd::utf8::is_ascii_chars("#CXRLE Pos="@),
        vstd::utf8::is_ascii_chars(" Gen="@),
        vstd::utf8::is_ascii_chars("x = "@),
        vstd::utf8::is_ascii_chars(", y = "@),
        vstd::utf8::is_ascii_chars(", rule = "@),
{
    reveal_strlit("#CXRLE Pos=");
    reveal_strlit(" Gen=");
    reveal_strlit("x = ");
    reveal_strlit(", y = ");
    reveal_strlit(", rule = ");
}

/// A header line is ASCII when its rule name is.
pub proof fn lemma_header_ascii(w: int, h: int, rule: Option<Seq<u8>>)
    requires
        (match rule {
            Some(v) => lt128(v),
            None => true,
        }),
    ensures
        lt128(header_text(w, h, rule)),
        lt128(empty_emit(rule)),
{
    lemma_lit_ascii();
    lemma_dec_ascii(w);
    lemma_dec_ascii(h);
    reveal_strlit("x = ");
    reveal_strlit(", y = ");
    reveal_strlit(", rule = ");
    let m1 = "x = "@.map_values(|c: char| c as u8);
    assert forall|i: int| 0 <= i < m1.len() implies #[trigger] m1[i] < 128 by {
        assert(m1[i] == "x = "@[i] as u8);
    }
    let m2 = ", y = "@.map_values(|c: char| c as u8);
    assert forall|i: int| 0 <= i < m2.len() implies #[trigger] m2[i] < 128 by {
        assert(m2[i] == ", y = "@[i] as u8);
    }
    let m3 = ", rule = "@.map_values(|c: char| c as u8);
    assert forall|i: int| 0 <= i < m3.len() implies #[trigger] m3[i] < 128 by {
        assert(m3[i] == ", rule = "@[i] as u8);
    }
}

/// Methods for encoding and decoding patterns to and from Golly
/// Extended RLE.
pub trait RleEncode: Sized {
    /// The well-formedness the encoder relies on.
    spec fn rle_wf(&self) -> bool;

    /// Encode the pattern in Golly Extended RLE.
    fn to_rle(&self) -> String
        requires
            self.rle_wf(),
    ;

    /// Decode a Golly Extended RLE pattern.
    fn from_rle(s: &str) -> Result<Self, String>;
}

impl RleEncode for NdAutomaton {
    open spec fn rle_wf(&self) -> bool {
        self.wf()
    }

    fn to_rle(&self) -> String {
        NdAutomaton::to_rle(self)
    }

    fn from_rle(s: &str) -> Result<NdAutomaton, String> {
        rle_decode(s)
    }
}

} // verus!