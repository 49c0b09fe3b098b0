//! Size formatting: raw byte counts, human-readable sizes with one decimal
//! place, padding and indented entry lines.

use vstd::prelude::*;

verus! {

use vstd::string::StringExecFns;
use vstd::utf8::is_ascii_chars;

/// Bytes in one kibibyte.
pub const KB: u64 = 1024;

/// Bytes in one mebibyte.
pub const MB: u64 = 1024 * KB;

/// Bytes in one gibibyte.
pub const GB: u64 = 1024 * MB;

/// Bytes in one tebibyte.
pub const TB: u64 = 1024 * GB;

/// The character for one decimal digit.
pub open spec fn spec_digit(d: int) -> char {
    if d == 0 {
        '0'
    } else if d == 1 {
        '1'
    } else if d == 2 {
        '2'
    } else if d == 3 {
        '3'
    } else if d == 4 {
        '4'
    } else if d == 5 {
        '5'
    } else if d == 6 {
        '6'
    } else if d == 7 {
        '7'
    } else if d == 8 {
        '8'
    } else {
        '9'
    }
}

/// The decimal spelling of a number, most significant digit first.
pub open spec fn spec_dec(n: int) -> Seq<char>
    decreases n,
{
    if n < 10 {
        seq![spec_digit(n)]
    } else {
        spec_dec(n / 10) + seq![spec_digit(n % 10)]
    }
}

/// Tenths of the unit that `bytes` comes to, rounded to nearest with ties
/// going to the even count of tenths.
pub open spec fn spec_tenths(bytes: u64, unit: u64) -> int {
    let v = (bytes as int) * 10;
    let q = v / (unit as int);
    let rem = v % (unit as int);
    if 2 * rem > unit || (2 * rem == unit && q % 2 == 1) {
        q + 1
    } else {
        q
    }
}

/// A size scaled to a unit, written with one decimal place.
pub open spec fn spec_scaled(bytes: u64, unit: u64) -> Seq<char> {
    let t = spec_tenths(bytes, unit);
    spec_dec(t / 10) + seq!['.'] + spec_dec(t % 10)
}

/// What `format_size` returns: the raw decimal byte count, or the size
/// under the largest unit it reaches, with one decimal place and the
/// unit's letter.
pub open spec fn spec_format_size(bytes: u64, human_readable: bool) -> Seq<char> {
    if !human_readable {
        spec_dec(bytes as int)
    } else if bytes >= TB {
        spec_scaled(bytes, TB) + seq!['T']
    } else if bytes >= GB {
        spec_scaled(bytes, GB) + seq!['G']
    } else if bytes >= MB {
        spec_scaled(bytes, MB) + seq!['M']
    } else if bytes >= KB {
        spec_scaled(bytes, KB) + seq!['K']
    } else {
        spec_dec(bytes as int) + seq!['B']
    }
}

/// A run of spaces.
pub open spec fn spec_spaces(n: nat) -> Seq<char>
    decreases n,
{
    if n == 0 {
        Seq::<char>::empty()
    } else {
        spec_spaces((n - 1) as nat) + seq![' ']
    }
}

/// What `format_size_padded` returns: the size, pushed right to the asked
/// width with spaces, and left alone when already that wide.
pub open spec fn spec_pad(s: Seq<char>, width: nat) -> Seq<char> {
    if s.len() >= width {
        s
    } else {
        spec_spaces((width - s.len()) as nat) + s
    }
}

/// One decimal digit as text.
fn digit_str(d: u64) -> (r: &'static str)
    requires
        d < 10,
    ensures
        r@ =~= seq![spec_digit(d as int)],
{
    proof {
        reveal_strlit("0");
        reveal_strlit("1");
        reveal_strlit("2");
        reveal_strlit("3");
        reveal_strlit("4");
        reveal_strlit("5");
        reveal_strlit("6");
        reveal_strlit("7");
        reveal_strlit("8");
        reveal_strlit("9");
    }
    match d {
        0 => "0",
        1 => "1",
        2 => "2",
        3 => "3",
        4 => "4",
        5 => "5",
        6 => "6",
        7 => "7",
        8 => "8",
        _ => "9",
    }
}

/// The decimal spelling of a number.
pub fn dec_of(n: u64) -> (r: String)
    ensures
        r@ == spec_dec(n as int),
    decreases n,
{
    if n < 10 {
        let r = digit_str(n).to_owned();
        proof {
            assert(r@ =~= spec_dec(n as int));
        }
        r
    } else {
        let mut r = dec_of(n / 10);
        r.append(digit_str(n % 10));
        proof {
            assert(r@ =~= spec_dec(n as int));
        }
        r
    }
}

/// Every character of a decimal spelling is plain ASCII.
proof fn lemma_dec_ascii(n: int)
    ensures
        is_ascii_chars(spec_dec(n)),
    decreases n,
{
    if n < 10 {
    } else {
        lemma_dec_ascii(n / 10);
    }
}

/// A size scaled to a unit, with one decimal place.
fn scaled_string(bytes: u64, unit: u64) -> (r: String)
    requires
        unit >= 1024,
    ensures
        r@ == spec_scaled(bytes, unit),
{
    let v: u128 = (bytes as u128) * 10;
    let u: u128 = unit as u128;
    let q128: u128 = v / u;
    let rem: u128 = v % u;
    proof {
        assert(q128 <= v / 1024) by (nonlinear_arith)
            requires
                u >= 1024,
                q128 == v / u,
                v >= 0,
        ;
    }
    let q: u64 = q128 as u64;
    let t: u64 = if rem * 2 > u || (rem * 2 == u && q % 2 == 1) {
        q + 1
    } else {
        q
    };
    proof {
        assert(t == spec_tenths(bytes, unit));
    }
    let mut r = dec_of(t / 10);
    r.append(".");
    let frac = dec_of(t % 10);
    r.append(frac.as_str());
    proof {
        reveal_strlit(".");
        assert(r@ =~= spec_scaled(bytes, unit));
    }
    r
}

/// Formats a byte count: as a raw decimal number, or human-readable with
/// one decimal place and the unit letter of the largest unit it reaches.
pub fn format_size(bytes: u64, human_readable: bool) -> (r: String)
    ensures
        r@ == spec_format_size(bytes, human_readable),
{
    if !human_readable {
        return dec_of(bytes);
    }
    if bytes >= TB {
        let mut r = scaled_string(bytes, TB);
        r.append("T");
        proof {
            reveal_strlit("T");
            assert(r@ =~= spec_format_size(bytes, human_readable));
        }
        r
    } else if bytes >= GB {
        let mut r = scaled_string(bytes, GB);
        r.append("G");
        proof {
            reveal_strlit("G");
            assert(r@ =~= spec_format_size(bytes, human_readable));
        }
        r
    } else if bytes >= MB {
        let mut r = scaled_string(bytes, MB);
        r.append("M");
        proof {
            reveal_strlit("M");
            assert(r@ =~= spec_format_size(bytes, human_readable));
        }
        r
    } else if bytes >= KB {
        let mut r = scaled_string(bytes, KB);
        r.append("K");
        proof {
            reveal_strlit("K");
            assert(r@ =~= spec_format_size(bytes, human_readable));
        }
        r
    } else {
        let mut r = dec_of(bytes);
        r.append("B");
        proof {
            reveal_strlit("B");
            assert(r@ =~= spec_format_size(bytes, human_readable));
        }
        r
    }
}

/// Every character `format_size` produces is plain ASCII.
pub proof fn lemma_format_size_ascii(bytes: u64, human_readable: bool)
    ensures
        is_ascii_chars(spec_format_size(bytes, human_readable)),
{
    lemma_dec_ascii(bytes as int);
    lemma_dec_ascii(spec_tenths(bytes, TB) / 10);
    lemma_dec_ascii(spec_tenths(bytes, TB) % 10);
    lemma_dec_ascii(spec_tenths(bytes, GB) / 10);
    lemma_dec_ascii(spec_tenths(bytes, GB) % 10);
    lemma_dec_ascii(spec_tenths(bytes, MB) / 10);
    lemma_dec_ascii(spec_tenths(bytes, MB) % 10);
    lemma_dec_ascii(spec_tenths(bytes, KB) / 10);
    lemma_dec_ascii(spec_tenths(bytes, KB) % 10);
}

/// Formats a byte count and pushes it right to the asked width with
/// spaces; a size already that wide is left alone.
pub fn format_size_padded(bytes: u64, human_readable: bool, width: usize) -> (r: String)
    ensures
        r@ == spec_pad(spec_format_size(bytes, human_readable), width as nat),
{
    broadcast use vstd::string::is_ascii_spec_bytes;

    let s = format_size(bytes, human_readable);
    let sa = s.as_str();
    let sb = sa.as_bytes();
    proof {
        lemma_format_size_ascii(bytes, human_readable);
        assert(vstd::string::is_ascii(sa));
        vstd::string::is_ascii_spec_bytes(sa);
    }
    let len = sb.len();
    proof {
        assert(len == s@.len());
    }
    if len >= width {
        return s;
    }
    let pad: usize = width - len;
    let mut r = String::new();
    let mut i: usize = 0;
    proof {
        reveal_strlit(" ");
        assert(r@ =~= spec_spaces(0));
    }
    while i < pad
        invariant
            0 <= i <= pad,
            r@ == spec_spaces(i as nat),
        decreases pad - i,
    {
        r.append(" ");
        proof {
            reveal_strlit(" ");
            assert(r@ =~= spec_spaces((i + 1) as nat));
        }
        i = i + 1;
    }
    r.append(s.as_str());
    r
}

/// One output line: the size, a tab, and the path pushed right by its
/// depth in the tree.
pub fn format_entry_line(size_str: &str, path_str: &str, depth: usize, indent_width: usize) -> (r:
    String)
    requires
        depth * indent_width <= usize::MAX,
    ensures
        r@ == size_str@ + seq!['\t'] + spec_spaces((depth * indent_width) as nat) + path_str@,
{
    let mut r = String::from_str(size_str);
    r.append("\t");
    let count: usize = depth * indent_width;
    let ghost base = size_str@ + seq!['\t'];
    proof {
        reveal_strlit("\t");
        assert(r@ =~= base + spec_spaces(0));
    }
    let mut i: usize = 0;
    while i < count
        invariant
            0 <= i <= count,
            r@ == base + spec_spaces(i as nat),
        decreases count - i,
    {
        r.append(" ");
        proof {
            reveal_strlit(" ");
            assert(spec_spaces((i + 1) as nat) == spec_spaces(i as nat) + seq![' ']);
            assert(r@ =~= base + spec_spaces((i + 1) as nat));
        }
        i = i + 1;
    }
    r.append(path_str);
    proof {
        assert(r@ =~= size_str@ + seq!['\t'] + spec_spaces((depth * indent_width) as nat)
            + path_str@);
    }
    r
}

} // verus!
