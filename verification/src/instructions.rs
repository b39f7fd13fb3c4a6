//! Rendering instructions: colours, opacities, per-territory instruction
//! sets, and their textual form `colour:opacity:id[,id...]`.

use vstd::prelude::*;
use vstd::string::StrSliceExecFns;

use crate::territory::{spec_code_of, Registry, TerritoryId, TerritoryIdError};

verus! {

broadcast use vstd::string::group_string_axioms;

/// An RGB colour.
#[derive(Clone, Copy, Debug, PartialEq, Eq, Structural)]
pub struct Colour {
    pub r: u8,
    pub g: u8,
    pub b: u8,
}

/// An opacity in `[0, 1]`, as the exact decimal fraction `num / den` with
/// `den` a power of ten.
#[derive(Clone, Copy, Debug, PartialEq, Eq, Structural)]
pub struct Opacity {
    pub num: u32,
    pub den: u32,
}

impl Opacity {
    pub open spec fn wf(self) -> bool {
        &&& 1 <= self.den <= 1_000_000_000
        &&& self.num <= self.den
    }
}

/// A colour plus an opacity, attached per territory to a fill or stroke
/// set.
#[derive(Clone, Copy, Debug, PartialEq, Eq, Structural)]
pub struct RenderInstruction {
    pub colour: Colour,
    pub opacity: Opacity,
}

/// The hexadecimal value of an ASCII byte, when it is a hex digit.
pub open spec fn hex_val(b: u8) -> int {
    if '0' as u8 <= b <= '9' as u8 {
        b - ('0' as u8)
    } else if 'a' as u8 <= b <= 'f' as u8 {
        10 + b - ('a' as u8)
    } else {
        10 + b - ('A' as u8)
    }
}

/// The ASCII byte is a hexadecimal digit.
pub open spec fn is_hex_digit(b: u8) -> bool {
    ('0' as u8 <= b <= '9' as u8) || ('a' as u8 <= b <= 'f' as u8) || ('A' as u8 <= b
        <= 'F' as u8)
}

/// The character sequence is a well-formed `#RRGGBB` colour: a hash sign
/// followed by exactly six hexadecimal digits.
pub open spec fn valid_hex_colour(s: Seq<char>) -> bool {
    &&& s.len() == 7
    &&& s[0] == '#'
    &&& forall|i: int| 1 <= i < 7 ==> is_hex_digit((#[trigger] s[i]) as u8) && '\0' <= s[i]
        <= '\u{7f}'
}

/// The colour denoted by a well-formed `#RRGGBB` sequence.
pub open spec fn spec_colour_of(s: Seq<char>) -> Colour {
    Colour {
        r: (16 * hex_val(s[1] as u8) + hex_val(s[2] as u8)) as u8,
        g: (16 * hex_val(s[3] as u8) + hex_val(s[4] as u8)) as u8,
        b: (16 * hex_val(s[5] as u8) + hex_val(s[6] as u8)) as u8,
    }
}

/// The hexadecimal value of an ASCII byte, or `None` when it is not a hex
/// digit.
fn hex_digit(b: u8) -> (r: Option<u8>)
    ensures
        r is Some <==> is_hex_digit(b),
        r matches Some(v) ==> v == hex_val(b) && v < 16,
{
    if 48 <= b && b <= 57 {
        Some(b - 48)
    } else if 97 <= b && b <= 102 {
        Some(10 + (b - 97))
    } else if 65 <= b && b <= 70 {
        Some(10 + (b - 65))
    } else {
        None
    }
}

/// Parse a `#RRGGBB` colour: a hash sign followed by six hexadecimal
/// digits, each channel given by two digits. Anything else — wrong length,
/// a missing hash, a stray character, a non-ASCII string — yields `None`.
pub fn colour_from_hex(hex: &str) -> (r: Option<Colour>)
    ensures
        r is Some <==> valid_hex_colour(hex@),
        r matches Some(c) ==> c == spec_colour_of(hex@),
{
    if !hex.is_ascii() {
        proof {
            if valid_hex_colour(hex@) {
                assert forall|i: int| 0 <= i < hex@.len() implies '\0' <= #[trigger] hex@[i]
                    <= '\u{7f}' by {
                    if i == 0 {
                        assert(hex@[0] == '#');
                    } else {
                        assert('\0' <= hex@[i] <= '\u{7f}');
                    }
                }
            }
        }
        return None;
    }
    let n = hex.unicode_len();
    if n != 7 {
        return None;
    }
    if hex.get_ascii(0) != 35 {
        proof {
            assert(hex@[0] as u8 != '#' as u8);
            assert(hex@[0] != '#');
        }
        return None;
    }
    let d1 = hex_digit(hex.get_ascii(1));
    let d2 = hex_digit(hex.get_ascii(2));
    let d3 = hex_digit(hex.get_ascii(3));
    let d4 = hex_digit(hex.get_ascii(4));
    let d5 = hex_digit(hex.get_ascii(5));
    let d6 = hex_digit(hex.get_ascii(6));
    match (d1, d2, d3, d4, d5, d6) {
        (Some(r1), Some(r2), Some(g1), Some(g2), Some(b1), Some(b2)) => {
            let c = Colour { r: 16 * r1 + r2, g: 16 * g1 + g2, b: 16 * b1 + b2 };
            proof {
                assert(valid_hex_colour(hex@)) by {
                    assert(hex@[0] as u8 == '#' as u8 && hex@[0] <= '\u{7f}');
                    assert(hex@[0] == '#');
                }
                assert(c == spec_colour_of(hex@));
            }
            Some(c)
        },
        _ => {
            proof {
                assert(!valid_hex_colour(hex@));
            }
            None
        },
    }
}

/// The character is a decimal digit.
pub open spec fn is_digit(c: char) -> bool {
    '0' <= c <= '9'
}

/// Every character of the sequence is a decimal digit.
pub open spec fn all_digits(s: Seq<char>) -> bool {
    forall|i: int| 0 <= i < s.len() ==> is_digit(#[trigger] s[i])
}

/// The number a digit sequence denotes, most significant digit first.
pub open spec fn digits_value(s: Seq<char>) -> int
    decreases s.len(),
{
    if s.len() == 0 {
        0
    } else {
        digits_value(s.drop_last()) * 10 + (s.last() as int - '0' as int)
    }
}

/// Ten to the `k`.
pub open spec fn pow10(k: nat) -> int
    decreases k,
{
    if k == 0 {
        1
    } else {
        10 * pow10((k - 1) as nat)
    }
}

pub proof fn lemma_pow10_pos(k: nat)
    ensures
        pow10(k) >= 1,
    decreases k,
{
    if k > 0 {
        lemma_pow10_pos((k - 1) as nat);
    }
}

pub proof fn lemma_pow10_le(a: nat, b: nat)
    requires
        a <= b,
    ensures
        pow10(a) <= pow10(b),
    decreases b,
{
    if a < b {
        lemma_pow10_le(a, (b - 1) as nat);
        lemma_pow10_pos((b - 1) as nat);
    }
}

/// The position of the first occurrence of `c` in `s`, or the length of
/// `s` when it does not occur.
pub open spec fn find_char(s: Seq<char>, c: char) -> int
    decreases s.len(),
{
    if s.len() == 0 {
        0
    } else if s[0] == c {
        0
    } else {
        1 + find_char(s.drop_first(), c)
    }
}

/// `find_char` names the first occurrence: nothing before it matches, and
/// it matches unless it is the length.
pub proof fn lemma_find_char(s: Seq<char>, c: char)
    ensures
        0 <= find_char(s, c) <= s.len(),
        find_char(s, c) < s.len() ==> s[find_char(s, c)] == c,
        forall|j: int| 0 <= j < find_char(s, c) ==> s[j] != c,
    decreases s.len(),
{
    if s.len() > 0 && s[0] != c {
        lemma_find_char(s.drop_first(), c);
        assert forall|j: int| 0 <= j < find_char(s, c) implies s[j] != c by {
            if j > 0 {
                assert(s.drop_first()[j - 1] == s[j]);
            }
        }
        if find_char(s, c) < s.len() {
            assert(s.drop_first()[find_char(s, c) - 1] == s[find_char(s, c)]);
        }
    }
}

/// `find_char` is determined by a witness: the first matching position.
pub proof fn lemma_find_char_at(s: Seq<char>, c: char, i: int)
    requires
        0 <= i <= s.len(),
        i < s.len() ==> s[i] == c,
        i == s.len() || forall|j: int| 0 <= j < i ==> s[j] != c,
        i == s.len() ==> forall|j: int| 0 <= j < s.len() ==> s[j] != c,
    ensures
        find_char(s, c) == i,
    decreases s.len(),
{
    if s.len() > 0 && s[0] != c {
        assert forall|j: int|
            0 <= j < i - 1 implies s.drop_first()[j] != c by {
            assert(s.drop_first()[j] == s[j + 1]);
        }
        if i == s.len() {
            assert forall|j: int|
                0 <= j < s.drop_first().len() implies s.drop_first()[j] != c by {
                assert(s.drop_first()[j] == s[j + 1]);
            }
        } else {
            assert(s.drop_first()[i - 1] == s[i]);
        }
        lemma_find_char_at(s.drop_first(), c, i - 1);
    }
}

/// The integer-part digits of an opacity text: everything before the first
/// dot.
pub open spec fn opacity_int_part(s: Seq<char>) -> Seq<char> {
    s.subrange(0, find_char(s, '.'))
}

/// The fraction digits of an opacity text: everything after the first dot,
/// or nothing when there is no dot.
pub open spec fn opacity_frac_part(s: Seq<char>) -> Seq<char> {
    if find_char(s, '.') < s.len() {
        s.subrange(find_char(s, '.') + 1, s.len() as int)
    } else {
        Seq::empty()
    }
}

/// A well-formed opacity text: decimal digits with at most one dot, at
/// least one digit in all, and at most nine digits on either side of the
/// dot.
pub open spec fn valid_opacity_text(s: Seq<char>) -> bool {
    let ip = opacity_int_part(s);
    let fp = opacity_frac_part(s);
    &&& all_digits(ip)
    &&& all_digits(fp)
    &&& ip.len() + fp.len() >= 1
    &&& ip.len() <= 9
    &&& fp.len() <= 9
}

/// The numerator an opacity text denotes, over `pow10` of the fraction
/// length.
pub open spec fn opacity_num(s: Seq<char>) -> int {
    digits_value(opacity_int_part(s)) * pow10(opacity_frac_part(s).len()) + digits_value(
        opacity_frac_part(s),
    )
}

/// The denominator an opacity text denotes.
pub open spec fn opacity_den(s: Seq<char>) -> int {
    pow10(opacity_frac_part(s).len())
}

/// The opacity a well-formed text denotes.
pub open spec fn spec_opacity_of(s: Seq<char>) -> Opacity {
    Opacity { num: opacity_num(s) as u32, den: opacity_den(s) as u32 }
}

/// Why an opacity or a whole rendering instruction failed to parse.
#[derive(Debug, Clone, PartialEq, Eq, Structural)]
pub enum InstructionError {
    MissingSeparator,
    InvalidColour,
    InvalidOpacity,
    OpacityOutOfRange,
    InvalidId(TerritoryIdError),
}

/// Parse an opacity: a plain decimal number (digits, optionally with one
/// dot, at least one digit in all, at most nine digits on either side of
/// the dot) whose value is at most one. The value is kept exactly, as a
/// fraction over a power of ten.
pub fn parse_opacity(s: &str) -> (r: Result<Opacity, InstructionError>)
    ensures
        r is Ok <==> valid_opacity_text(s@) && opacity_num(s@) <= opacity_den(s@),
        r matches Ok(o) ==> o == spec_opacity_of(s@) && o.wf(),
        r == Err::<Opacity, InstructionError>(InstructionError::InvalidOpacity) <==> !valid_opacity_text(s@),
        r == Err::<Opacity, InstructionError>(InstructionError::OpacityOutOfRange) <==> valid_opacity_text(s@) && opacity_num(s@) > opacity_den(s@),
{
    proof {
        lemma_find_char(s@, '.');
    }
    if !s.is_ascii() {
        proof {
            if valid_opacity_text(s@) {
                let dd = find_char(s@, '.');
                assert forall|i: int| 0 <= i < s@.len() implies '\0' <= #[trigger] s@[i]
                    <= '\u{7f}' by {
                    if i < dd {
                        assert(opacity_int_part(s@)[i] == s@[i]);
                        assert(is_digit(s@[i]));
                    } else if i == dd {
                        assert(s@[i] == '.');
                    } else {
                        assert(opacity_frac_part(s@)[i - dd - 1] == s@[i]);
                        assert(is_digit(s@[i]));
                    }
                }
            }
        }
        return Err(InstructionError::InvalidOpacity);
    }
    let n = s.unicode_len();
    let mut d: usize = n;
    let mut i: usize = 0;
    while i < n
        invariant
            0 <= i <= n,
            n == s@.len(),
            s.is_ascii(),
            d == n || (d < i && s@[d as int] == '.'),
            d == n ==> forall|j: int| 0 <= j < i ==> s@[j] != '.',
            d < n ==> forall|j: int| 0 <= j < d ==> s@[j] != '.',
        decreases n - i,
    {
        if d == n && s.get_ascii(i) == 46 {
            proof {
                assert(s@[i as int] as u8 == 46 && s@[i as int] <= '\u{7f}');
                assert(s@[i as int] == '.');
            }
            d = i;
        }
        i += 1;
    }
    proof {
        lemma_find_char_at(s@, '.', d as int);
    }
    if d > 9 {
        return Err(InstructionError::InvalidOpacity);
    }
    let mut val: u64 = 0;
    let mut j: usize = 0;
    while j < d
        invariant
            0 <= j <= d <= 9,
            d as int == find_char(s@, '.'),
            d <= n,
            n == s@.len(),
            s.is_ascii(),
            all_digits(s@.subrange(0, j as int)),
            val == digits_value(s@.subrange(0, j as int)),
            val < pow10(j as nat),
        decreases d - j,
    {
        let b = s.get_ascii(j);
        proof {
            assert(s@[j as int] as u8 == b && s@[j as int] <= '\u{7f}');
        }
        if b < 48 || b > 57 {
            proof {
                assert(!is_digit(s@[j as int]));
                assert(opacity_int_part(s@)[j as int] == s@[j as int]);
                assert(!valid_opacity_text(s@));
            }
            return Err(InstructionError::InvalidOpacity);
        }
        proof {
            assert(is_digit(s@[j as int]));
            lemma_pow10_le(j as nat, 8nat);
            assert(pow10(8nat) == 100_000_000) by {
                reveal_with_fuel(pow10, 9);
            }
            let prefix = s@.subrange(0, j + 1);
            assert(prefix.drop_last() =~= s@.subrange(0, j as int));
            assert(prefix.last() == s@[j as int]);
            assert(forall|k: int|
                0 <= k < j + 1 ==> #[trigger] prefix[k] == s@.subrange(0, j + 1)[k]);
        }
        val = val * 10 + ((b - 48) as u64);
        j += 1;
    }
    let ghost ip = opacity_int_part(s@);
    proof {
        assert(s@.subrange(0, d as int) =~= ip);
    }
    let fl: usize = if d < n {
        n - d - 1
    } else {
        0
    };
    let ghost fp = opacity_frac_part(s@);
    proof {
        if d < n {
            assert(fp =~= s@.subrange(d + 1, n as int));
        }
        assert(fp.len() == fl);
    }
    if fl > 9 {
        return Err(InstructionError::InvalidOpacity);
    }
    let mut fval: u64 = 0;
    let mut k: usize = 0;
    if d < n {
    while k < fl
        invariant
            0 <= k <= fl <= 9,
            d < n,
            fl == n - d - 1,
            d as int == find_char(s@, '.'),
            fp == opacity_frac_part(s@),
            fp =~= s@.subrange(d + 1, n as int),
            fp.len() == fl,
            n == s@.len(),
            s.is_ascii(),
            all_digits(fp.subrange(0, k as int)),
            fval == digits_value(fp.subrange(0, k as int)),
            fval < pow10(k as nat),
        decreases fl - k,
    {
        let b = s.get_ascii(d + 1 + k);
        proof {
            assert(fp[k as int] == s@[d + 1 + k]);
            assert(s@[d + 1 + k] as u8 == b && s@[d + 1 + k] <= '\u{7f}');
        }
        if b < 48 || b > 57 {
            proof {
                assert(!is_digit(fp[k as int]));
                assert(!valid_opacity_text(s@));
            }
            return Err(InstructionError::InvalidOpacity);
        }
        proof {
            assert(is_digit(fp[k as int]));
            lemma_pow10_le(k as nat, 8nat);
            assert(pow10(8nat) == 100_000_000) by {
                reveal_with_fuel(pow10, 9);
            }
            let prefix = fp.subrange(0, k + 1);
            assert(prefix.drop_last() =~= fp.subrange(0, k as int));
            assert(prefix.last() == fp[k as int]);
        }
        fval = fval * 10 + ((b - 48) as u64);
        k += 1;
    }
    }
    proof {
        assert(fp.subrange(0, fl as int) =~= fp);
        assert(all_digits(fp) && fval == digits_value(fp));
        lemma_pow10_pos(fp.len());
    }
    if d == 0 && fl == 0 {
        proof {
            assert(ip.len() + fp.len() == 0);
        }
        return Err(InstructionError::InvalidOpacity);
    }
    let mut pow: u64 = 1;
    let mut p: usize = 0;
    while p < fl
        invariant
            0 <= p <= fl <= 9,
            pow == pow10(p as nat),
        decreases fl - p,
    {
        proof {
            lemma_pow10_le(p as nat, 8nat);
            assert(pow10(8nat) == 100_000_000) by {
                reveal_with_fuel(pow10, 9);
            }
        }
        pow = pow * 10;
        p += 1;
    }
    proof {
        assert(pow == pow10(fp.len()));
        lemma_pow10_le(fp.len(), 9nat);
        lemma_pow10_le(ip.len(), 9nat);
        assert(pow10(9nat) == 1_000_000_000) by {
            reveal_with_fuel(pow10, 10);
        }
        lemma_pow10_pos(fp.len());
        assert(val * pow <= 999_999_999 * 1_000_000_000) by (nonlinear_arith)
            requires
                0 <= val <= 999_999_999,
                0 <= pow <= 1_000_000_000,
        ;
    }
    let num: u64 = val * pow + fval;
    if num <= pow {
        proof {
            assert(num == opacity_num(s@) && pow == opacity_den(s@));
            assert(valid_opacity_text(s@));
        }
        Ok(Opacity { num: num as u32, den: pow as u32 })
    } else {
        proof {
            assert(num == opacity_num(s@) && pow == opacity_den(s@));
        }
        Err(InstructionError::OpacityOutOfRange)
    }
}

/// The instruction of the first entry with the given code, if any.
pub open spec fn find_inst(s: Seq<(TerritoryId, RenderInstruction)>, code: int) -> Option<
    RenderInstruction,
>
    decreases s.len(),
{
    if s.len() == 0 {
        None
    } else if s[0].0.code() == code {
        Some(s[0].1)
    } else {
        find_inst(s.drop_first(), code)
    }
}

/// `find_inst` returns the entry at `i` when no earlier entry matches.
proof fn lemma_find_inst_at(s: Seq<(TerritoryId, RenderInstruction)>, code: int, i: int)
    requires
        0 <= i < s.len(),
        s[i].0.code() == code,
        forall|j: int| 0 <= j < i ==> (#[trigger] s[j]).0.code() != code,
    ensures
        find_inst(s, code) == Some(s[i].1),
    decreases i,
{
    if i > 0 {
        lemma_find_inst_at(s.drop_first(), code, i - 1);
        assert(s.drop_first()[i - 1] == s[i]);
    }
}

/// `find_inst` fails when no entry matches.
proof fn lemma_find_inst_none(s: Seq<(TerritoryId, RenderInstruction)>, code: int)
    requires
        forall|j: int| 0 <= j < s.len() ==> (#[trigger] s[j]).0.code() != code,
    ensures
        find_inst(s, code) is None,
    decreases s.len(),
{
    if s.len() > 0 {
        assert forall|j: int|
            0 <= j < s.drop_first().len() implies (#[trigger] s.drop_first()[j]).0.code()
            != code by {
            assert(s.drop_first()[j] == s[j + 1]);
        }
        lemma_find_inst_none(s.drop_first(), code);
    }
}

/// Replacing the instruction at one entry leaves lookups of every other
/// code unchanged.
proof fn lemma_find_inst_update(
    pre: Seq<(TerritoryId, RenderInstruction)>,
    post: Seq<(TerritoryId, RenderInstruction)>,
    i: int,
    c: int,
)
    requires
        pre.len() == post.len(),
        0 <= i < pre.len(),
        pre[i].0.code() == post[i].0.code(),
        forall|j: int| 0 <= j < pre.len() && j != i ==> #[trigger] pre[j] == post[j],
        c != pre[i].0.code(),
    ensures
        find_inst(post, c) == find_inst(pre, c),
    decreases pre.len(),
{
    if pre.len() > 0 {
        if i == 0 {
            assert(pre[0].0.code() != c && post[0].0.code() != c);
            assert(pre.drop_first() =~= post.drop_first());
        } else if pre[0].0.code() == c {
            assert(pre[0] == post[0]);
        } else {
            assert(pre[0] == post[0]);
            assert forall|j: int|
                0 <= j < pre.drop_first().len() && j != i - 1 implies #[trigger] pre.drop_first()[j]
                == post.drop_first()[j] by {
                assert(pre.drop_first()[j] == pre[j + 1] && post.drop_first()[j] == post[j + 1]);
            }
            assert(pre.drop_first()[i - 1] == pre[i] && post.drop_first()[i - 1] == post[i]);
            lemma_find_inst_update(pre.drop_first(), post.drop_first(), i - 1, c);
        }
    }
}

/// Appending an entry only affects lookups of codes the list did not hold.
proof fn lemma_find_inst_push(
    pre: Seq<(TerritoryId, RenderInstruction)>,
    e: (TerritoryId, RenderInstruction),
    c: int,
)
    ensures
        find_inst(pre.push(e), c) == if find_inst(pre, c) is Some {
            find_inst(pre, c)
        } else if e.0.code() == c {
            Some(e.1)
        } else {
            None
        },
    decreases pre.len(),
{
    let post = pre.push(e);
    if pre.len() == 0 {
        assert(post[0] == e);
        assert(post.drop_first() =~= Seq::<(TerritoryId, RenderInstruction)>::empty());
        assert(find_inst(pre, c) is None);
        if e.0.code() == c {
            assert(find_inst(post, c) == Some(e.1));
        } else {
            assert(find_inst(post.drop_first(), c) is None);
            assert(find_inst(post, c) is None);
        }
    } else {
        assert(post[0] == pre[0]);
        assert(post.drop_first() =~= pre.drop_first().push(e));
        lemma_find_inst_push(pre.drop_first(), e, c);
    }
}

/// A set of per-territory rendering instructions: at most one instruction
/// per territory, in insertion order. Inserting an already-present
/// territory replaces its instruction in place, so draw order is explicit
/// and deterministic.
#[derive(Debug, Clone)]
pub struct InstructionSet {
    entries: Vec<(TerritoryId, RenderInstruction)>,
}

impl InstructionSet {
    pub closed spec fn entries_seq(self) -> Seq<(TerritoryId, RenderInstruction)> {
        self.entries@
    }

    /// No two entries name the same territory.
    pub open spec fn wf(self) -> bool {
        forall|i: int, j: int|
            0 <= i < j < self.entries_seq().len() ==> (#[trigger] self.entries_seq()[i]).0.code()
                != (#[trigger] self.entries_seq()[j]).0.code()
    }

    /// The instruction set as a mapping from territory codes to
    /// instructions.
    pub open spec fn as_map(self) -> Map<int, RenderInstruction> {
        Map::new(
            |code: int| find_inst(self.entries_seq(), code) is Some,
            |code: int| find_inst(self.entries_seq(), code)->Some_0,
        )
    }

    /// An empty instruction set.
    pub fn new() -> (r: InstructionSet)
        ensures
            r.wf(),
            r.entries_seq().len() == 0,
            r.as_map() =~= Map::<int, RenderInstruction>::empty(),
    {
        InstructionSet { entries: Vec::new() }
    }

    /// The number of territories in the set.
    pub fn len(&self) -> (n: usize)
        ensures
            n == self.entries_seq().len(),
    {
        self.entries.len()
    }

    /// The entry at position `i`, in insertion order.
    pub fn entry(&self, i: usize) -> (e: (TerritoryId, RenderInstruction))
        requires
            i < self.entries_seq().len(),
        ensures
            e == self.entries_seq()[i as int],
    {
        self.entries[i]
    }

    /// Insert an instruction for a territory, replacing any instruction
    /// the territory already had.
    pub fn insert(&mut self, id: TerritoryId, inst: RenderInstruction)
        requires
            old(self).wf(),
        ensures
            final(self).wf(),
            final(self).as_map() =~= old(self).as_map().insert(id.code(), inst),
            final(self).entries_seq().len() <= old(self).entries_seq().len() + 1,
    {
        let code: u32 = id.code_u32();
        let n = self.entries.len();
        let mut i: usize = 0;
        while i < n
            invariant
                0 <= i <= n,
                self.entries@ == old(self).entries@,
                old(self).wf(),
                n == self.entries@.len(),
                code == id.code(),
                forall|j: int| 0 <= j < i ==> (#[trigger] self.entries@[j]).0.code() != code,
            decreases n - i,
        {
            if self.entries[i].0.code_u32() == code {
                let ghost pre = self.entries@;
                self.entries.set(i, (id, inst));
                proof {
                    let post = self.entries@;
                    assert forall|a: int, b: int|
                        0 <= a < b < post.len() implies (#[trigger] post[a]).0.code() != (
                        #[trigger] post[b]).0.code() by {
                        assert(a == i || pre[a] == post[a]);
                        assert(b == i || pre[b] == post[b]);
                        assert(pre == old(self).entries_seq());
                        assert((#[trigger] old(self).entries_seq()[a]).0.code() != (
                        #[trigger] old(self).entries_seq()[b]).0.code());
                        assert(pre[a].0.code() != pre[b].0.code());
                        assert(post[a].0.code() == pre[a].0.code());
                        assert(post[b].0.code() == pre[b].0.code());
                    }
                    lemma_find_inst_at(post, code as int, i as int);
                    assert forall|c: int| c != code implies find_inst(post, c) == find_inst(
                        pre,
                        c,
                    ) by {
                        lemma_find_inst_update(pre, post, i as int, c);
                    }
                }
                return;
            }
            i += 1;
        }
        let ghost pre = self.entries@;
        self.entries.push((id, inst));
        proof {
            let post = self.entries@;
            assert(post[n as int] == (id, inst));
            assert forall|a: int, b: int|
                0 <= a < b < post.len() implies (#[trigger] post[a]).0.code() != (
            #[trigger] post[b]).0.code() by {
                assert(pre == old(self).entries_seq());
                if b < n {
                    assert((#[trigger] old(self).entries_seq()[a]).0.code() != (
                    #[trigger] old(self).entries_seq()[b]).0.code());
                    assert(pre[a] == post[a] && pre[b] == post[b]);
                } else {
                    assert(pre[a] == post[a] && post[b] == (id, inst));
                    assert((#[trigger] old(self).entries_seq()[a]).0.code() != code);
                }
            }
            lemma_find_inst_none(pre, code as int);
            assert forall|c: int| true implies #[trigger] find_inst(post, c) == (if find_inst(
                pre,
                c,
            ) is Some {
                find_inst(pre, c)
            } else if c == code {
                Some(inst)
            } else {
                None
            }) by {
                lemma_find_inst_push(pre, (id, inst), c);
            }
        }
    }

    /// The instruction attached to a territory, if any.
    pub fn get(&self, id: &TerritoryId) -> (r: Option<&RenderInstruction>)
        ensures
            r is Some <==> self.as_map().contains_key(id.code()),
            r matches Some(inst) ==> self.as_map()[id.code()] == *inst,
    {
        let code: u32 = id.code_u32();
        let mut i: usize = 0;
        while i < self.entries.len()
            invariant
                0 <= i <= self.entries@.len(),
                code == id.code(),
                forall|j: int| 0 <= j < i ==> (#[trigger] self.entries@[j]).0.code() != code,
            decreases self.entries@.len() - i,
        {
            if self.entries[i].0.code_u32() == code {
                proof {
                    lemma_find_inst_at(self.entries@, code as int, i as int);
                }
                return Some(&self.entries[i].1);
            }
            i += 1;
        }
        proof {
            lemma_find_inst_none(self.entries@, code as int);
        }
        None
    }
}

/// `find_inst` succeeds exactly when some entry carries the code.
pub proof fn lemma_find_inst_exists(s: Seq<(TerritoryId, RenderInstruction)>, code: int)
    ensures
        find_inst(s, code) is Some <==> exists|i: int|
            0 <= i < s.len() && (#[trigger] s[i]).0.code() == code,
        find_inst(s, code) matches Some(v) ==> exists|i: int|
            0 <= i < s.len() && (#[trigger] s[i]).0.code() == code && s[i].1 == v,
    decreases s.len(),
{
    if s.len() > 0 {
        if s[0].0.code() == code {
            assert(s[0].0.code() == code);
        } else {
            lemma_find_inst_exists(s.drop_first(), code);
            if find_inst(s.drop_first(), code) is Some {
                let i = choose|i: int|
                    0 <= i < s.drop_first().len() && (#[trigger] s.drop_first()[i]).0.code()
                        == code;
                assert(s[i + 1].0.code() == code);
                if find_inst(s, code) is Some {
                    let v = find_inst(s, code)->Some_0;
                    let j = choose|i: int|
                        0 <= i < s.drop_first().len() && (#[trigger] s.drop_first()[i]).0.code()
                            == code && s.drop_first()[i].1 == v;
                    assert(s[j + 1].0.code() == code && s[j + 1].1 == v);
                }
            } else {
                assert forall|i: int|
                    0 <= i < s.len() implies (#[trigger] s[i]).0.code() != code by {
                    if i > 0 {
                        assert(s.drop_first()[i - 1] == s[i]);
                    }
                }
            }
        }
    }
}

/// The instruction the concatenation of several sets gives a territory:
/// the instruction of the last set that names it.
pub open spec fn merged_value(sets: Seq<InstructionSet>, c: int) -> Option<RenderInstruction>
    decreases sets.len(),
{
    if sets.len() == 0 {
        None
    } else if sets.last().as_map().contains_key(c) {
        Some(sets.last().as_map()[c])
    } else {
        merged_value(sets.drop_last(), c)
    }
}

/// Combine several instruction sets into one: every named territory keeps
/// the instruction of the last set that names it, as when the sets are
/// folded together by repeated insertion.
pub fn merge_instruction_sets(sets: &Vec<InstructionSet>) -> (r: InstructionSet)
    requires
        forall|i: int| 0 <= i < sets@.len() ==> (#[trigger] sets@[i]).wf(),
    ensures
        r.wf(),
        forall|c: int|
            #[trigger] r.as_map().contains_key(c) <==> merged_value(sets@, c) is Some,
        forall|c: int|
            #[trigger] r.as_map().contains_key(c) ==> Some(r.as_map()[c]) == merged_value(
                sets@,
                c,
            ),
{
    let mut acc = InstructionSet::new();
    let mut si: usize = 0;
    proof {
        assert(sets@.subrange(0, 0) =~= Seq::<InstructionSet>::empty());
    }
    while si < sets.len()
        invariant
            0 <= si <= sets@.len(),
            forall|i: int| 0 <= i < sets@.len() ==> (#[trigger] sets@[i]).wf(),
            acc.wf(),
            forall|c: int|
                #[trigger] acc.as_map().contains_key(c) <==> merged_value(
                    sets@.subrange(0, si as int),
                    c,
                ) is Some,
            forall|c: int|
                #[trigger] acc.as_map().contains_key(c) ==> Some(acc.as_map()[c])
                    == merged_value(sets@.subrange(0, si as int), c),
        decreases sets@.len() - si,
    {
        let ghost prefix = sets@.subrange(0, si as int);
        let set = &sets[si];
        let ghost gset = sets@[si as int];
        let m = set.len();
        let mut ei: usize = 0;
        while ei < m
            invariant
                0 <= ei <= m,
                0 <= si < sets@.len(),
                forall|i: int| 0 <= i < sets@.len() ==> (#[trigger] sets@[i]).wf(),
                *set == gset,
                gset == sets@[si as int],
                prefix == sets@.subrange(0, si as int),
                m == gset.entries_seq().len(),
                acc.wf(),
                forall|c: int|
                    #[trigger] acc.as_map().contains_key(c) <==> (merged_value(prefix, c) is Some
                        || exists|j: int|
                        0 <= j < ei && (#[trigger] gset.entries_seq()[j]).0.code() == c),
                forall|j: int|
                    0 <= j < ei ==> acc.as_map().contains_key(
                        (#[trigger] gset.entries_seq()[j]).0.code(),
                    ) && acc.as_map()[gset.entries_seq()[j].0.code()] == gset.entries_seq()[j].1,
                forall|c: int|
                    #[trigger] acc.as_map().contains_key(c) && !(exists|j: int|
                        0 <= j < ei && (#[trigger] gset.entries_seq()[j]).0.code() == c) ==> Some(
                        acc.as_map()[c],
                    ) == merged_value(prefix, c),
            decreases m - ei,
        {
            let e = set.entry(ei);
            let ghost pre_map = acc.as_map();
            acc.insert(e.0, e.1);
            proof {
                assert(acc.as_map() =~= pre_map.insert(e.0.code(), e.1));
                assert forall|c: int|
                    #[trigger] acc.as_map().contains_key(c) <==> (merged_value(
                        prefix,
                        c,
                    ) is Some || exists|j: int|
                        0 <= j < ei + 1 && (#[trigger] gset.entries_seq()[j]).0.code()
                            == c) by {
                    if c == e.0.code() {
                        assert(gset.entries_seq()[ei as int].0.code() == c);
                    }
                }
                assert forall|j: int|
                    0 <= j < ei + 1 implies acc.as_map().contains_key(
                    (#[trigger] gset.entries_seq()[j]).0.code(),
                ) && acc.as_map()[gset.entries_seq()[j].0.code()] == gset.entries_seq()[j].1 by {
                    if j < ei {
                        assert(gset.entries_seq()[j].0.code() != gset.entries_seq()[ei as int].0.code());
                        assert(pre_map.contains_key(gset.entries_seq()[j].0.code()));
                    } else {
                        assert(gset.entries_seq()[j] == e);
                    }
                }
                assert forall|c: int|
                    #[trigger] acc.as_map().contains_key(c) && !(exists|j: int|
                        0 <= j < ei + 1 && (#[trigger] gset.entries_seq()[j]).0.code() == c)
                    implies Some(acc.as_map()[c]) == merged_value(prefix, c) by {
                    assert(c != e.0.code());
                    assert(pre_map.contains_key(c));
                }
            }
            ei += 1;
        }
        proof {
            let next = sets@.subrange(0, si + 1);
            assert(next.drop_last() =~= prefix);
            assert(next.last() == gset);
            lemma_find_inst_exists(gset.entries_seq(), 0);
            assert forall|c: int|
                #[trigger] acc.as_map().contains_key(c) <==> merged_value(next, c) is Some by {
                lemma_find_inst_exists(gset.entries_seq(), c);
            }
            assert forall|c: int|
                #[trigger] acc.as_map().contains_key(c) implies Some(acc.as_map()[c])
                == merged_value(next, c) by {
                lemma_find_inst_exists(gset.entries_seq(), c);
                if gset.as_map().contains_key(c) {
                    let v = find_inst(gset.entries_seq(), c)->Some_0;
                    let j = choose|i: int|
                        0 <= i < gset.entries_seq().len() && (
                        #[trigger] gset.entries_seq()[i]).0.code() == c
                            && gset.entries_seq()[i].1 == v;
                    assert(acc.as_map()[c] == gset.entries_seq()[j].1);
                }
            }
        }
        si += 1;
    }
    proof {
        assert(sets@.subrange(0, sets@.len() as int) =~= sets@);
    }
    acc
}

/// The comma-separated pieces of an identifier list. A text without a
/// comma is one piece, so an empty text is one empty piece.
pub open spec fn id_list(s: Seq<char>) -> Seq<Seq<char>>
    decreases s.len(),
{
    let k = find_char(s, ',');
    if 0 <= k < s.len() {
        seq![s.subrange(0, k)] + id_list(s.subrange(k + 1, s.len() as int))
    } else {
        seq![s]
    }
}

/// The piece names a registered territory: three ASCII characters whose
/// code the registry holds.
pub open spec fn id_ok(t: Seq<char>, registry: Registry) -> bool {
    &&& vstd::utf8::is_ascii_chars(t)
    &&& t.len() == 3
    &&& registry.spec_contains(spec_code_of(t))
}

/// The error a bad identifier piece parses to.
pub open spec fn id_error_of(t: Seq<char>) -> TerritoryIdError {
    if !vstd::utf8::is_ascii_chars(t) {
        TerritoryIdError::InvalidEncoding
    } else if t.len() != 3 {
        TerritoryIdError::InvalidLength(t.len() as usize)
    } else {
        TerritoryIdError::DoesNotExist
    }
}

/// The text has a colour part, an opacity part and an identifier part,
/// separated by two colons.
pub open spec fn has_two_colons(s: Seq<char>) -> bool {
    &&& find_char(s, ':') < s.len()
    &&& {
        let rest = s.subrange(find_char(s, ':') + 1, s.len() as int);
        find_char(rest, ':') < rest.len()
    }
}

/// The colour part: everything before the first colon.
pub open spec fn colour_text(s: Seq<char>) -> Seq<char> {
    s.subrange(0, find_char(s, ':'))
}

/// The opacity part: between the first and second colons.
pub open spec fn opacity_text(s: Seq<char>) -> Seq<char> {
    let rest = s.subrange(find_char(s, ':') + 1, s.len() as int);
    rest.subrange(0, find_char(rest, ':'))
}

/// The identifier part: everything after the second colon.
pub open spec fn ids_text(s: Seq<char>) -> Seq<char> {
    let rest = s.subrange(find_char(s, ':') + 1, s.len() as int);
    rest.subrange(find_char(rest, ':') + 1, rest.len() as int)
}

/// The position of the first occurrence of `target` at or after `from`,
/// or the text's length.
fn find_char_from(s: &str, from: usize, n: usize, target: char) -> (r: usize)
    requires
        from <= n,
        n == s@.len(),
    ensures
        from <= r <= n,
        r < n ==> s@[r as int] == target,
        forall|j: int| from <= j < r ==> s@[j] != target,
{
    let mut i: usize = from;
    while i < n
        invariant
            from <= i <= n,
            n == s@.len(),
            forall|j: int| from <= j < i ==> s@[j] != target,
        decreases n - i,
    {
        if s.get_char(i) == target {
            return i;
        }
        i += 1;
    }
    n
}

/// Parse one rendering instruction of the form
/// `colour:opacity:id[,id...]`: a `#RRGGBB` colour, a decimal opacity in
/// `[0, 1]`, and one or more registered territory identifiers. The result
/// maps every listed territory to that colour and opacity; a territory
/// listed twice keeps the (identical) instruction once. Errors are
/// reported in this order: missing separators, bad colour, bad opacity,
/// opacity out of range, then the first bad identifier.
pub fn parse_rendering_instructions(s: &str, registry: &Registry) -> (r: Result<
    InstructionSet,
    InstructionError,
>)
    ensures
        r == Err::<InstructionSet, InstructionError>(InstructionError::MissingSeparator)
            <==> !has_two_colons(s@),
        r == Err::<InstructionSet, InstructionError>(InstructionError::InvalidColour) <==>
            has_two_colons(s@) && !valid_hex_colour(colour_text(s@)),
        r == Err::<InstructionSet, InstructionError>(InstructionError::InvalidOpacity) <==>
            has_two_colons(s@) && valid_hex_colour(colour_text(s@)) && !valid_opacity_text(
            opacity_text(s@),
        ),
        r == Err::<InstructionSet, InstructionError>(InstructionError::OpacityOutOfRange)
            <==> has_two_colons(s@) && valid_hex_colour(colour_text(s@)) && valid_opacity_text(
            opacity_text(s@),
        ) && opacity_num(opacity_text(s@)) > opacity_den(opacity_text(s@)),
        (r matches Err(e) && e is InvalidId) <==> has_two_colons(s@) && valid_hex_colour(
            colour_text(s@),
        ) && valid_opacity_text(opacity_text(s@)) && opacity_num(opacity_text(s@))
            <= opacity_den(opacity_text(s@)) && (exists|i: int|
            0 <= i < id_list(ids_text(s@)).len() && !id_ok(
                #[trigger] id_list(ids_text(s@))[i],
                *registry,
            )),
        (r matches Err(e) && e is InvalidId) ==> exists|b: int|
            {
                &&& 0 <= b < id_list(ids_text(s@)).len()
                &&& !id_ok(#[trigger] id_list(ids_text(s@))[b], *registry)
                &&& forall|j: int| 0 <= j < b ==> id_ok(#[trigger] id_list(ids_text(s@))[j], *registry)
                &&& r == Err::<InstructionSet, InstructionError>(
                    InstructionError::InvalidId(id_error_of(id_list(ids_text(s@))[b])),
                )
            },
        r is Ok <==> has_two_colons(s@) && valid_hex_colour(colour_text(s@))
            && valid_opacity_text(opacity_text(s@)) && opacity_num(opacity_text(s@))
            <= opacity_den(opacity_text(s@)) && (forall|i: int|
            0 <= i < id_list(ids_text(s@)).len() ==> id_ok(
                #[trigger] id_list(ids_text(s@))[i],
                *registry,
            )),
        r matches Ok(set) ==> {
            &&& set.wf()
            &&& forall|c: int|
                #[trigger] set.as_map().contains_key(c) <==> exists|i: int|
                    0 <= i < id_list(ids_text(s@)).len() && spec_code_of(
                        #[trigger] id_list(ids_text(s@))[i],
                    ) == c
            &&& forall|c: int|
                #[trigger] set.as_map().contains_key(c) ==> set.as_map()[c] == (
                RenderInstruction {
                    colour: spec_colour_of(colour_text(s@)),
                    opacity: spec_opacity_of(opacity_text(s@)),
                })
        },
{
    let n = s.unicode_len();
    let c1 = find_char_from(s, 0, n, ':');
    proof {
        lemma_find_char_at(s@, ':', c1 as int);
    }
    if c1 == n {
        return Err(InstructionError::MissingSeparator);
    }
    let ghost rest = s@.subrange(c1 + 1, n as int);
    let c2 = find_char_from(s, c1 + 1, n, ':');
    proof {
        assert forall|j: int| 0 <= j < rest.len() implies #[trigger] rest[j] == s@[c1 + 1 + j] by {}
        if c2 < n {
            assert(rest[c2 - c1 - 1] == s@[c2 as int]);
        }
        lemma_find_char_at(rest, ':', c2 - c1 - 1);
    }
    if c2 == n {
        proof {
            assert(!has_two_colons(s@));
        }
        return Err(InstructionError::MissingSeparator);
    }
    proof {
        assert(has_two_colons(s@));
    }
    let colour_str = s.substring_char(0, c1);
    proof {
        assert(colour_str@ == colour_text(s@));
    }
    let colour = match colour_from_hex(colour_str) {
        Some(c) => c,
        None => {
            return Err(InstructionError::InvalidColour);
        },
    };
    let opacity_str = s.substring_char(c1 + 1, c2);
    proof {
        assert(opacity_str@ =~= rest.subrange(0, find_char(rest, ':')));
        assert(opacity_str@ == opacity_text(s@));
    }
    let opacity = match parse_opacity(opacity_str) {
        Ok(o) => o,
        Err(InstructionError::OpacityOutOfRange) => {
            return Err(InstructionError::OpacityOutOfRange);
        },
        Err(_) => {
            return Err(InstructionError::InvalidOpacity);
        },
    };
    let inst = RenderInstruction { colour, opacity };
    let ghost ids_full = id_list(ids_text(s@));
    proof {
        assert(ids_text(s@) =~= s@.subrange(c2 + 1, n as int));
    }
    let mut set = InstructionSet::new();
    let ghost mut processed: Seq<Seq<char>> = seq![];
    let mut pos: usize = c2 + 1;
    proof {
        assert(ids_full =~~= processed + id_list(s@.subrange(pos as int, n as int)));
    }
    while pos <= n
        invariant
            c2 < pos <= n,
            n == s@.len(),
            has_two_colons(s@),
            valid_hex_colour(colour_text(s@)),
            valid_opacity_text(opacity_text(s@)),
            opacity_num(opacity_text(s@)) <= opacity_den(opacity_text(s@)),
            set.wf(),
            inst == (RenderInstruction {
                colour: spec_colour_of(colour_text(s@)),
                opacity: spec_opacity_of(opacity_text(s@)),
            }),
            ids_full == id_list(ids_text(s@)),
            ids_full == processed + id_list(s@.subrange(pos as int, n as int)),
            forall|i: int| 0 <= i < processed.len() ==> id_ok(#[trigger] processed[i], *registry),
            forall|c: int|
                #[trigger] set.as_map().contains_key(c) <==> exists|i: int|
                    0 <= i < processed.len() && spec_code_of(#[trigger] processed[i]) == c,
            forall|c: int|
                #[trigger] set.as_map().contains_key(c) ==> set.as_map()[c] == inst,
        decreases n - pos,
    {
        let ghost rem = s@.subrange(pos as int, n as int);
        let e = find_char_from(s, pos, n, ',');
        proof {
            assert forall|j: int| 0 <= j < rem.len() implies #[trigger] rem[j] == s@[pos + j] by {}
            if e < n {
                assert(rem[e - pos] == s@[e as int]);
            }
            lemma_find_char_at(rem, ',', e - pos);
        }
        let piece = s.substring_char(pos, e);
        proof {
            assert(piece@ =~= rem.subrange(0, e - pos));
        }
        let id = match TerritoryId::from_str(piece, registry) {
            Ok(id) => id,
            Err(why) => {
                proof {
                    let b = processed.len() as int;
                    assert(id_list(rem)[0] == piece@);
                    assert(ids_full[b] == piece@);
                    assert(!id_ok(piece@, *registry));
                    assert(why == id_error_of(piece@));
                    assert forall|j: int| 0 <= j < b implies id_ok(
                        #[trigger] ids_full[j],
                        *registry,
                    ) by {
                        assert(ids_full[j] == processed[j]);
                    }
                }
                return Err(InstructionError::InvalidId(why));
            },
        };
        let ghost pre_map = set.as_map();
        let ghost pre_processed = processed;
        set.insert(id, inst);
        proof {
            processed = processed.push(piece@);
            assert(id.code() == spec_code_of(piece@));
            assert(id_ok(piece@, *registry));
            assert(set.as_map() =~= pre_map.insert(id.code(), inst));
            assert forall|c: int|
                #[trigger] set.as_map().contains_key(c) <==> exists|i: int|
                    0 <= i < processed.len() && spec_code_of(#[trigger] processed[i]) == c by {
                if set.as_map().contains_key(c) {
                    if c == id.code() {
                        assert(processed[processed.len() - 1] == piece@);
                        assert(spec_code_of(processed[processed.len() - 1]) == c);
                    } else {
                        assert(pre_map.contains_key(c));
                        let i = choose|i: int|
                            0 <= i < pre_processed.len() && spec_code_of(
                                #[trigger] pre_processed[i],
                            ) == c;
                        assert(processed[i] == pre_processed[i]);
                        assert(spec_code_of(processed[i]) == c);
                    }
                }
                if exists|i: int|
                    0 <= i < processed.len() && spec_code_of(#[trigger] processed[i]) == c {
                    let i = choose|i: int|
                        0 <= i < processed.len() && spec_code_of(#[trigger] processed[i]) == c;
                    if i < pre_processed.len() {
                        assert(pre_processed[i] == processed[i]);
                        assert(pre_map.contains_key(c));
                        assert(set.as_map().contains_key(c));
                    } else {
                        assert(processed[i] == piece@);
                        assert(c == id.code());
                        assert(set.as_map().contains_key(c));
                    }
                }
            }
            assert forall|c: int|
                #[trigger] set.as_map().contains_key(c) implies set.as_map()[c] == inst by {
                if c != id.code() {
                    assert(pre_map.contains_key(c));
                    assert(set.as_map()[c] == pre_map[c]);
                }
            }
        }
        if e == n {
            proof {
                assert(id_list(rem) =~~= seq![piece@]);
                assert(processed =~~= ids_full);
                assert forall|i: int|
                    0 <= i < ids_full.len() implies id_ok(#[trigger] ids_full[i], *registry) by {
                    assert(ids_full[i] == processed[i]);
                }
            }
            return Ok(set);
        }
        proof {
            let tail = s@.subrange(e + 1, n as int);
            assert(rem.subrange(e - pos + 1, rem.len() as int) =~= tail);
            assert(id_list(rem) =~~= seq![piece@] + id_list(tail));
            assert(ids_full =~~= processed + id_list(tail));
        }
        pos = e + 1;
    }
    proof {
        assert(false);
    }
    vstd::pervasive::unreached()
}

} // verus!
