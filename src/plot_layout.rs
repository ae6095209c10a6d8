//! Integer helpers for laying out a landscape plot: which genotypes are
//! joined by one mutation, and how many genotypes share a mutation count.
use crate::genotype::{diff_count, weight_of, Genotype};
use vstd::prelude::*;

verus! {

pub open spec fn spec_factorial(n: nat) -> nat
    decreases n,
{
    if n == 0 {
        1
    } else {
        n * spec_factorial((n - 1) as nat)
    }
}

/// n!
pub fn factorial(n: usize) -> (r: usize)
    requires
        spec_factorial(n as nat) <= usize::MAX,
    ensures
        r == spec_factorial(n as nat),
{
    let mut r: usize = 1;
    let mut i: usize = 0;
    while i < n
        invariant
            i <= n,
            r == spec_factorial(i as nat),
            spec_factorial(n as nat) <= usize::MAX,
        decreases n - i,
    {
        proof {
            lemma_factorial_monotone((i + 1) as nat, n as nat);
            assert(spec_factorial((i + 1) as nat) == (i + 1) * spec_factorial(i as nat));
        }
        r = (i + 1) * r;
        i = i + 1;
    }
    r
}

pub proof fn lemma_factorial_positive(n: nat)
    ensures
        spec_factorial(n) >= 1,
    decreases n,
{
    if n > 0 {
        lemma_factorial_positive((n - 1) as nat);
        assert(n * spec_factorial((n - 1) as nat) >= 1) by (nonlinear_arith)
            requires n >= 1, spec_factorial((n - 1) as nat) >= 1;
    }
}

pub proof fn lemma_factorial_monotone(a: nat, b: nat)
    requires
        a <= b,
    ensures
        spec_factorial(a) <= spec_factorial(b),
    decreases b,
{
    if a < b {
        lemma_factorial_monotone(a, (b - 1) as nat);
        lemma_factorial_positive((b - 1) as nat);
        assert(b * spec_factorial((b - 1) as nat) >= spec_factorial((b - 1) as nat)) by (nonlinear_arith)
            requires b >= 1, spec_factorial((b - 1) as nat) >= 1;
    }
}

/// The number of ways to choose `k` of `n`: n! / (k! (n-k)!).
pub fn binomial_coefficient(k: usize, n: usize) -> (r: usize)
    requires
        k <= n,
        spec_factorial(n as nat) <= usize::MAX,
    ensures
        r == spec_factorial(n as nat) / (spec_factorial(k as nat) * spec_factorial((n - k) as nat)),
{
    proof {
        lemma_factorial_monotone(k as nat, n as nat);
        lemma_factorial_monotone((n - k) as nat, n as nat);
        lemma_factorial_positive(k as nat);
        lemma_factorial_positive((n - k) as nat);
        lemma_factorial_split(k as nat, n as nat);
    }
    let a = factorial(n);
    let b = factorial(k);
    let c = factorial(n - k);
    proof {
        assert(b * c >= 1) by (nonlinear_arith)
            requires b >= 1, c >= 1;
    }
    a / (b * c)
}

/// k! (n-k)! never exceeds n!.
pub proof fn lemma_factorial_split(k: nat, n: nat)
    requires
        k <= n,
    ensures
        spec_factorial(k) * spec_factorial((n - k) as nat) <= spec_factorial(n),
    decreases n,
{
    if k == n {
        assert(spec_factorial(0) == 1);
        assert((n - k) as nat == 0);
        assert(spec_factorial(k) * spec_factorial((n - k) as nat) == spec_factorial(k));
    } else {
        lemma_factorial_split(k, (n - 1) as nat);
        lemma_factorial_positive(k);
        let m = (n - 1 - k) as nat;
        assert(spec_factorial((n - k) as nat) == (n - k) * spec_factorial(m));
        assert(spec_factorial(n) == n * spec_factorial((n - 1) as nat));
        assert(spec_factorial(k) * spec_factorial((n - k) as nat) <= spec_factorial(n)) by (nonlinear_arith)
            requires
                spec_factorial(k) * spec_factorial(m) <= spec_factorial((n - 1) as nat),
                spec_factorial((n - k) as nat) == (n - k) * spec_factorial(m),
                spec_factorial(n) == n * spec_factorial((n - 1) as nat),
                n - k <= n,
                spec_factorial(k) >= 1,
        ;
    }
}

/// Genotype `a` carries one derived allele more than `b` and differs from
/// it at exactly one locus.
pub open spec fn one_step_above(a: Seq<u8>, b: Seq<u8>) -> bool {
    weight_of(a) == weight_of(b) + 1 && diff_count(a, b) == 1
}

/// The pairs of positions `(i, j)`, in lexicographic order, such that
/// `genotypes[i]` is one mutation above `genotypes[j]`.
pub fn get_connections<const L: usize>(genotypes: &Vec<Genotype<L>>) -> (r: Vec<(usize, usize)>)
    ensures
        forall|m: int|
            0 <= m < r@.len() ==> {
                let (i, j) = #[trigger] r@[m];
                i < genotypes@.len() && j < genotypes@.len() && one_step_above(
                    genotypes@[i as int]@,
                    genotypes@[j as int]@,
                )
            },
        forall|i: int, j: int|
            0 <= i < genotypes@.len() && 0 <= j < genotypes@.len() && one_step_above(
                genotypes@[i]@,
                genotypes@[j]@,
            ) ==> r@.contains((i as usize, j as usize)),
        forall|a: int, b: int| 0 <= a < b < r@.len() ==> pair_before(r@[a], r@[b]),
{
    let n = genotypes.len();
    let mut connections: Vec<(usize, usize)> = Vec::new();
    let mut i: usize = 0;
    while i < n
        invariant
            i <= n,
            n == genotypes@.len(),
            forall|m: int|
                0 <= m < connections@.len() ==> {
                    let (p, q) = #[trigger] connections@[m];
                    p < i && q < n && one_step_above(genotypes@[p as int]@, genotypes@[q as int]@)
                },
            forall|p: int, q: int|
                0 <= p < i && 0 <= q < n && one_step_above(genotypes@[p]@, genotypes@[q]@)
                    ==> connections@.contains((p as usize, q as usize)),
            forall|a: int, b: int|
                0 <= a < b < connections@.len() ==> pair_before(connections@[a], connections@[b]),
        decreases n - i,
    {
        let mut j: usize = 0;
        let ghost start = connections@;
        while j < n
            invariant
                i < n,
                j <= n,
                n == genotypes@.len(),
                start.len() <= connections@.len(),
                forall|m: int| 0 <= m < start.len() ==> connections@[m] == start[m],
                forall|m: int|
                    0 <= m < start.len() ==> {
                        let (p, q) = #[trigger] start[m];
                        p < i && q < n
                    },
                forall|m: int|
                    0 <= m < connections@.len() ==> {
                        let (p, q) = #[trigger] connections@[m];
                        p <= i && q < n && one_step_above(genotypes@[p as int]@, genotypes@[q as int]@)
                    },
                forall|m: int|
                    start.len() <= m < connections@.len() ==> {
                        let (p, q) = #[trigger] connections@[m];
                        p == i && q < j
                    },
                forall|p: int, q: int|
                    0 <= p < i && 0 <= q < n && one_step_above(genotypes@[p]@, genotypes@[q]@)
                        ==> connections@.contains((p as usize, q as usize)),
                forall|q: int|
                    0 <= q < j && one_step_above(genotypes@[i as int]@, genotypes@[q]@)
                        ==> connections@.contains((i, q as usize)),
                forall|a: int, b: int|
                    0 <= a < b < connections@.len() ==> pair_before(connections@[a], connections@[b]),
            decreases n - j,
        {
            let g1 = &genotypes[i];
            let g2 = &genotypes[j];
            let w1 = g1.sum();
            let w2 = g2.sum();
            if w1 > 0 && w1 - 1 == w2 && g1.n_differences(g2) == 1 {
                let ghost before = connections@;
                connections.push((i, j));
                proof {
                    assert forall|a: int, b: int|
                        0 <= a < b < connections@.len() implies pair_before(connections@[a], connections@[b]) by {
                        if b == before.len() {
                            if a >= start.len() {
                                assert(before[a].0 == i && before[a].1 < j);
                            } else {
                                assert(before[a] == start[a]);
                            }
                        } else {
                            assert(connections@[a] == before[a]);
                        }
                    }
                    assert forall|p: int, q: int|
                        0 <= p < i && 0 <= q < n && one_step_above(genotypes@[p]@, genotypes@[q]@)
                            implies connections@.contains((p as usize, q as usize)) by {
                        let m = choose|m: int| 0 <= m < before.len() && before[m] == (p as usize, q as usize);
                        assert(connections@[m] == (p as usize, q as usize));
                    }
                    assert forall|q: int|
                        0 <= q < j + 1 && one_step_above(genotypes@[i as int]@, genotypes@[q]@)
                            implies connections@.contains((i, q as usize)) by {
                        if q < j {
                            let m = choose|m: int| 0 <= m < before.len() && before[m] == (i, q as usize);
                            assert(connections@[m] == (i, q as usize));
                        } else {
                            assert(connections@[before.len() as int] == (i, q as usize));
                        }
                    }
                }
            }
            j = j + 1;
        }
        i = i + 1;
    }
    connections
}

/// `a` comes strictly before `b` in lexicographic order.
pub open spec fn pair_before(a: (usize, usize), b: (usize, usize)) -> bool {
    a.0 < b.0 || (a.0 == b.0 && a.1 < b.1)
}

} // verus!

verus! {

/// Value of a hexadecimal digit, either case; -1 for any other character.
pub open spec fn hex_digit_value(c: char) -> int {
    if '0' <= c && c <= '9' {
        c as int - '0' as int
    } else if 'A' <= c && c <= 'F' {
        c as int - 'A' as int + 10
    } else if 'a' <= c && c <= 'f' {
        c as int - 'a' as int + 10
    } else {
        -1
    }
}

/// Two characters read as a signed base-16 integer: two digits, or a sign
/// followed by one digit.
pub open spec fn field_value(c0: char, c1: char) -> int {
    if c0 == '+' {
        hex_digit_value(c1)
    } else if c0 == '-' {
        -hex_digit_value(c1)
    } else {
        16 * hex_digit_value(c0) + hex_digit_value(c1)
    }
}

pub open spec fn valid_field(c0: char, c1: char) -> bool {
    &&& hex_digit_value(c1) >= 0
    &&& (c0 == '+' || c0 == '-' || hex_digit_value(c0) >= 0)
}

/// A string whose first seven characters are ASCII, characters 1-2, 3-4
/// and 5-6 being base-16 fields.
pub open spec fn is_hex_color(s: Seq<char>) -> bool {
    &&& s.len() >= 7
    &&& vstd::utf8::is_ascii_chars(s.take(7))
    &&& valid_field(s[1], s[2])
    &&& valid_field(s[3], s[4])
    &&& valid_field(s[5], s[6])
}

/// The channels a hex colour string encodes.
pub open spec fn hex_channels(s: Seq<char>) -> (int, int, int) {
    (field_value(s[1], s[2]), field_value(s[3], s[4]), field_value(s[5], s[6]))
}

/// Upper-case base-16 digits of `n`, without leading zeros.
pub open spec fn upper_hex(n: nat) -> Seq<char>
    decreases n,
{
    let d = n % 16;
    let c = if d < 10 {
        (d + '0' as nat) as char
    } else {
        (d - 10 + 'A' as nat) as char
    };
    if n < 16 {
        seq![c]
    } else {
        upper_hex(n / 16) + seq![c]
    }
}

/// `#` and each channel in upper-case base 16 (a negative channel as its
/// 32-bit two's complement), without padding.
pub open spec fn hex_string(r: i32, g: i32, b: i32) -> Seq<char> {
    seq!['#'] + upper_hex(r as u32 as nat) + upper_hex(g as u32 as nat) + upper_hex(b as u32 as nat)
}

/// Relies on std's `UpperHex` formatting of `i32`: two's complement digits,
/// upper case, no padding.
#[verifier::external_body]
fn format_hex(r: i32, g: i32, b: i32) -> (s: String)
    ensures
        s@ == hex_string(r, g, b),
{
    format!("#{:X}{:X}{:X}", r, g, b)
}

fn digit_value(c: u8) -> (r: i32)
    ensures
        r == hex_digit_value(c as char),
{
    // '0' is 48, 'A' is 65 and 'a' is 97 in ASCII.
    if 48 <= c && c <= 57 {
        (c - 48) as i32
    } else if 65 <= c && c <= 70 {
        (c - 65) as i32 + 10
    } else if 97 <= c && c <= 102 {
        (c - 97) as i32 + 10
    } else {
        -1
    }
}

fn parse_field(c0: u8, c1: u8) -> (r: i32)
    requires
        valid_field(c0 as char, c1 as char),
    ensures
        r == field_value(c0 as char, c1 as char),
{
    let low = digit_value(c1);
    // '+' is 43 and '-' is 45 in ASCII.
    if c0 == 43 {
        low
    } else if c0 == 45 {
        -low
    } else {
        16 * digit_value(c0) + low
    }
}

/// The UTF-8 encoding of a string starts with the bytes of its leading
/// ASCII characters.
proof fn lemma_ascii_prefix_bytes(chars: Seq<char>, k: int)
    requires
        0 <= k <= chars.len(),
        vstd::utf8::is_ascii_chars(chars.take(k)),
    ensures
        vstd::utf8::encode_utf8(chars).len() >= k,
        forall|i: int| 0 <= i < k ==> #[trigger] vstd::utf8::encode_utf8(chars)[i] == chars[i] as u8,
    decreases k,
{
    if k > 0 {
        let c0 = chars[0] as u32;
        vstd::utf8::is_ascii_chars_nat_bound(chars.take(k));
        assert(chars.take(k)[0] == chars[0]);
        assert((chars[0] as nat) < 128);
        assert(c0 <= 0x7f);
        assert(c0 as u8 == vstd::utf8::leading_byte_width_1(c0)) by (bit_vector)
            requires
                c0 <= 0x7f,
        ;
        let rest = chars.drop_first();
        assert(vstd::utf8::is_ascii_chars(rest.take(k - 1))) by {
            assert forall|i: int| 0 <= i < k - 1 implies '\0' <= #[trigger] rest.take(k - 1)[i] <= '\u{7f}' by {
                assert(rest.take(k - 1)[i] == chars.take(k)[i + 1]);
            }
        }
        lemma_ascii_prefix_bytes(rest, k - 1);
        let e = vstd::utf8::encode_utf8(chars);
        assert(e == vstd::utf8::encode_scalar(c0) + vstd::utf8::encode_utf8(rest));
        assert forall|i: int| 0 <= i < k implies #[trigger] e[i] == chars[i] as u8 by {
            assert(vstd::utf8::encode_scalar(c0) =~= seq![c0 as u8]);
            if i > 0 {
                assert(e[i] == vstd::utf8::encode_utf8(rest)[i - 1]);
                assert(rest[i - 1] == chars[i]);
            }
        }
    }
}

/// The channels of a hex colour string.
fn parse_hex(s: &String) -> (r: (i32, i32, i32))
    requires
        is_hex_color(s@),
    ensures
        (r.0 as int, r.1 as int, r.2 as int) == hex_channels(s@),
{
    let text = s.as_str();
    let bytes = text.as_bytes();
    proof {
        lemma_ascii_prefix_bytes(s@, 7);
        assert(bytes@ == vstd::utf8::encode_utf8(s@));
        assert forall|i: int| 0 <= i < 7 implies #[trigger] bytes@[i] as char == s@[i] by {
            vstd::utf8::is_ascii_chars_nat_bound(s@.take(7));
            assert(s@.take(7)[i] == s@[i]);
            assert((s@[i] as nat) < 128);
            assert(vstd::utf8::encode_utf8(s@)[i] == s@[i] as u8);
        }
    }
    (parse_field(bytes[1], bytes[2]), parse_field(bytes[3], bytes[4]), parse_field(bytes[5], bytes[6]))
}

/// A colour, as red, green and blue channels or as a `#RRGGBB` string.
#[derive(Clone, Debug)]
pub enum Color {
    RGB(i32, i32, i32),
    Hex(String),
}

impl Color {
    /// The colour can be read as channels: a hex string must be well formed.
    pub open spec fn readable(&self) -> bool {
        match self {
            Color::RGB(..) => true,
            Color::Hex(s) => is_hex_color(s@),
        }
    }

    /// The channels of the colour.
    pub open spec fn channels(&self) -> (int, int, int) {
        match self {
            Color::RGB(r, g, b) => (*r as int, *g as int, *b as int),
            Color::Hex(s) => hex_channels(s@),
        }
    }

    /// The colour as channels.
    pub fn to_rgb(&self) -> (r: Color)
        requires
            self.readable(),
        ensures
            r matches Color::RGB(x, y, z) && (x as int, y as int, z as int) == self.channels(),
    {
        match self {
            Color::RGB(r, g, b) => Color::RGB(*r, *g, *b),
            Color::Hex(s) => {
                let (r, g, b) = parse_hex(s);
                Color::RGB(r, g, b)
            },
        }
    }

    /// The colour as a string: a hex string is kept, channels are written
    /// in base 16.
    pub fn to_hex(&self) -> (r: Color)
        ensures
            r matches Color::Hex(t) && t@ == match self {
                Color::RGB(x, y, z) => hex_string(*x, *y, *z),
                Color::Hex(s) => s@,
            },
    {
        match self {
            Color::RGB(r, g, b) => Color::Hex(format_hex(*r, *g, *b)),
            Color::Hex(s) => Color::Hex(s.clone()),
        }
    }

    /// The string of `to_hex`.
    pub fn as_string(&self) -> (r: String)
        ensures
            r@ == match self {
                Color::RGB(x, y, z) => hex_string(*x, *y, *z),
                Color::Hex(s) => s@,
            },
    {
        match self {
            Color::RGB(r, g, b) => format_hex(*r, *g, *b),
            Color::Hex(s) => s.clone(),
        }
    }

    /// The channels of `to_rgb`.
    pub fn as_tuple(&self) -> (r: (i32, i32, i32))
        requires
            self.readable(),
        ensures
            (r.0 as int, r.1 as int, r.2 as int) == self.channels(),
    {
        match self {
            Color::RGB(r, g, b) => (*r, *g, *b),
            Color::Hex(s) => parse_hex(s),
        }
    }
}

} // verus!
