//! Region and in-region chunk coordinates, and the `r.<x>.<z>.mca` file
//! name grammar: formatting a position into a name and parsing a name back.

use vstd::arithmetic::div_mod::lemma_fundamental_div_mod_converse;
use vstd::prelude::*;

verus! {

/// A decimal digit.
pub open spec fn is_dec_digit(c: char) -> bool {
    '0' <= c && c <= '9'
}

/// Numeric value of a decimal digit.
pub open spec fn digit_val(c: char) -> int {
    c as int - 48
}

/// The digit character for a value below ten.
pub open spec fn digit_char(d: int) -> char {
    ((d + 48) as u8) as char
}

/// Every character of `s` is a decimal digit.
pub open spec fn all_digits(s: Seq<char>) -> bool {
    forall|i: int| 0 <= i < s.len() ==> is_dec_digit(#[trigger] s[i])
}

/// Value of a digit string, most significant digit first.
pub open spec fn dec_val(s: Seq<char>) -> int
    decreases s.len(),
{
    if s.len() == 0 {
        0
    } else {
        dec_val(s.drop_last()) * 10 + digit_val(s.last())
    }
}

/// The decimal digits of a non-negative value, no leading zeros except for
/// the value zero itself.
pub open spec fn dec_digits(n: int) -> Seq<char>
    decreases n,
{
    if n < 10 {
        seq![digit_char(n)]
    } else {
        dec_digits(n / 10).push(digit_char(n % 10))
    }
}

/// The decimal rendering of a signed value.
pub open spec fn i32_dec_str(v: int) -> Seq<char> {
    if v < 0 {
        seq!['-'] + dec_digits(-v)
    } else {
        dec_digits(v)
    }
}

/// What `i32::from_str` accepts: an optional sign, one or more decimal
/// digits, and a value within `i32`'s range.
pub open spec fn parse_i32(s: Seq<char>) -> Option<int> {
    let neg = s.len() > 0 && s[0] == '-';
    let signed = s.len() > 0 && (s[0] == '-' || s[0] == '+');
    let digits = if signed {
        s.skip(1)
    } else {
        s
    };
    if digits.len() == 0 || !all_digits(digits) {
        None
    } else {
        let v = if neg {
            -dec_val(digits)
        } else {
            dec_val(digits)
        };
        if -0x80000000 <= v <= 0x7FFFFFFF {
            Some(v)
        } else {
            None
        }
    }
}

/// Index of the first '.' at or after `from`; the string's length when none
/// occurs there.
pub open spec fn first_dot_at(s: Seq<char>, from: int) -> int
    decreases s.len() - from,
{
    if !(0 <= from < s.len()) {
        s.len() as int
    } else if s[from] == '.' {
        from
    } else {
        first_dot_at(s, from + 1)
    }
}

/// The region file name grammar: four dot-separated parts, the first `r`,
/// the last `mca`, and two signed decimal coordinates between them.
pub open spec fn parse_region_filename(s: Seq<char>) -> Option<(int, int)> {
    let d1 = first_dot_at(s, 0);
    let d2 = first_dot_at(s, d1 + 1);
    let d3 = first_dot_at(s, d2 + 1);
    let d4 = first_dot_at(s, d3 + 1);
    if d1 >= s.len() || d2 >= s.len() || d3 >= s.len() || d4 < s.len() {
        None
    } else if s.subrange(0, d1) != seq!['r'] || s.subrange(d3 + 1, s.len() as int) != seq![
        'm',
        'c',
        'a',
    ] {
        None
    } else {
        match (parse_i32(s.subrange(d1 + 1, d2)), parse_i32(s.subrange(d2 + 1, d3))) {
            (Some(a), Some(b)) => Some((a, b)),
            _ => None,
        }
    }
}

/// The file name of a region at the given coordinates.
pub open spec fn region_filename(x: int, z: int) -> Seq<char> {
    seq!['r', '.'] + i32_dec_str(x) + seq!['.'] + i32_dec_str(z) + seq!['.', 'm', 'c', 'a']
}

/// The converse: a dot preceded by no dot from `from` onward is what
/// [`first_dot_at`] finds.
pub proof fn lemma_first_dot_at_of(s: Seq<char>, from: int, m: int)
    requires
        0 <= from <= m <= s.len(),
        forall|k: int| from <= k < m ==> s[k] != '.',
        m < s.len() ==> s[m] == '.',
    ensures
        first_dot_at(s, from) == m,
    decreases m - from,
{
    if from == m {
    } else {
        lemma_first_dot_at_of(s, from + 1, m);
    }
}

/// A digit string's value is non-negative.
pub proof fn lemma_dec_val_nonneg(s: Seq<char>)
    requires
        all_digits(s),
    ensures
        dec_val(s) >= 0,
    decreases s.len(),
{
    if s.len() > 0 {
        assert(all_digits(s.drop_last()));
        lemma_dec_val_nonneg(s.drop_last());
    }
}

/// Extending a digit string never shrinks its value.
pub proof fn lemma_dec_val_prefix(s: Seq<char>, k: int)
    requires
        all_digits(s),
        0 <= k <= s.len(),
    ensures
        dec_val(s.subrange(0, k)) <= dec_val(s),
    decreases s.len() - k,
{
    if k < s.len() {
        let t = s.subrange(0, k + 1);
        assert(t.drop_last() =~= s.subrange(0, k));
        assert(all_digits(s.subrange(0, k)));
        lemma_dec_val_nonneg(s.subrange(0, k));
        assert(dec_val(t) == dec_val(s.subrange(0, k)) * 10 + digit_val(s[k]));
        assert(digit_val(s[k]) >= 0);
        assert(dec_val(s.subrange(0, k)) <= dec_val(t)) by (nonlinear_arith)
            requires
                dec_val(t) == dec_val(s.subrange(0, k)) * 10 + digit_val(s[k]),
                dec_val(s.subrange(0, k)) >= 0,
                digit_val(s[k]) >= 0,
        ;
        lemma_dec_val_prefix(s, k + 1);
    } else {
        assert(s.subrange(0, k) =~= s);
    }
}

/// The digits of a non-negative value are decimal digits, and at least one.
pub proof fn lemma_dec_digits_are_digits(n: int)
    requires
        0 <= n,
    ensures
        dec_digits(n).len() >= 1,
        all_digits(dec_digits(n)),
    decreases n,
{
    if n < 10 {
        assert(is_dec_digit(digit_char(n)));
    } else {
        lemma_dec_digits_are_digits(n / 10);
        assert(is_dec_digit(digit_char(n % 10)));
        assert forall|i: int| 0 <= i < dec_digits(n).len() implies is_dec_digit(
            #[trigger] dec_digits(n)[i],
        ) by {
            if i < dec_digits(n / 10).len() {
                assert(dec_digits(n)[i] == dec_digits(n / 10)[i]);
            }
        }
    }
}

/// Reading the digits of a value back gives the value.
pub proof fn lemma_dec_val_of_digits(n: int)
    requires
        0 <= n,
    ensures
        dec_val(dec_digits(n)) == n,
    decreases n,
{
    reveal_with_fuel(dec_val, 3);
    if n < 10 {
        assert(digit_val(digit_char(n)) == n);
        assert(dec_digits(n).drop_last() =~= Seq::<char>::empty());
    } else {
        lemma_dec_val_of_digits(n / 10);
        assert(digit_val(digit_char(n % 10)) == n % 10);
        assert(dec_digits(n).drop_last() =~= dec_digits(n / 10));
        assert(n == (n / 10) * 10 + n % 10) by (nonlinear_arith)
            requires
                n >= 10,
        ;
    }
}

/// A rendered coordinate parses back to itself.
pub proof fn lemma_parse_i32_of_dec_str(v: int)
    requires
        -0x80000000 <= v <= 0x7FFFFFFF,
    ensures
        parse_i32(i32_dec_str(v)) == Some(v),
{
    if v >= 0 {
        lemma_dec_digits_are_digits(v);
        lemma_dec_val_of_digits(v);
        let s = i32_dec_str(v);
        assert(is_dec_digit(s[0]));
        assert(s[0] != '-' && s[0] != '+');
    } else {
        lemma_dec_digits_are_digits(-v);
        lemma_dec_val_of_digits(-v);
        let s = i32_dec_str(v);
        assert(s[0] == '-');
        assert(s.skip(1) =~= dec_digits(-v));
    }
}

/// Round trip of the file name grammar: the name formatted for a position
/// parses back to exactly that position.
pub proof fn lemma_filename_round_trip(x: int, z: int)
    requires
        -0x80000000 <= x <= 0x7FFFFFFF,
        -0x80000000 <= z <= 0x7FFFFFFF,
    ensures
        parse_region_filename(region_filename(x, z)) == Some((x, z)),
{
    let s = region_filename(x, z);
    let xs = i32_dec_str(x);
    let zs = i32_dec_str(z);
    lemma_dec_digits_are_digits(if x >= 0 {
        x
    } else {
        -x
    });
    lemma_dec_digits_are_digits(if z >= 0 {
        z
    } else {
        -z
    });
    assert forall|i: int| 0 <= i < xs.len() implies xs[i] != '.' by {
        if x < 0 && i == 0 {
        } else {
            let ds = dec_digits(
                if x >= 0 {
                    x
                } else {
                    -x
                },
            );
            assert(is_dec_digit(if x < 0 {
                ds[i - 1]
            } else {
                ds[i]
            }));
        }
    }
    assert forall|i: int| 0 <= i < zs.len() implies zs[i] != '.' by {
        if z < 0 && i == 0 {
        } else {
            let ds = dec_digits(
                if z >= 0 {
                    z
                } else {
                    -z
                },
            );
            assert(is_dec_digit(if z < 0 {
                ds[i - 1]
            } else {
                ds[i]
            }));
        }
    }
    let d1 = 1int;
    let d2 = 2 + xs.len() as int;
    let d3 = d2 + 1 + zs.len() as int;
    assert(s.len() == d3 + 4);
    assert(s[0] == 'r' && s[1] == '.');
    assert(s[d2] == '.');
    assert(s[d3] == '.');
    assert(s[d3 + 1] == 'm' && s[d3 + 2] == 'c' && s[d3 + 3] == 'a');
    assert forall|k: int| 2 <= k < d2 implies s[k] != '.' by {
        assert(s[k] == xs[k - 2]);
    }
    assert forall|k: int| d2 + 1 <= k < d3 implies s[k] != '.' by {
        assert(s[k] == zs[k - (d2 + 1)]);
    }
    lemma_first_dot_at_of(s, 0, d1);
    lemma_first_dot_at_of(s, d1 + 1, d2);
    lemma_first_dot_at_of(s, d2 + 1, d3);
    lemma_first_dot_at_of(s, d3 + 1, s.len() as int);
    assert(s.subrange(0, d1) =~= seq!['r']);
    assert(s.subrange(d3 + 1, s.len() as int) =~= seq!['m', 'c', 'a']);
    assert(s.subrange(d1 + 1, d2) =~= xs);
    assert(s.subrange(d2 + 1, d3) =~= zs);
    lemma_parse_i32_of_dec_str(x);
    lemma_parse_i32_of_dec_str(z);
}

/// Finds the first '.' in `s` at or after `from`.
#[verifier::loop_isolation(false)]
fn find_dot(s: &str, from: usize, n: usize) -> (r: usize)
    requires
        n == s@.len(),
        from <= n,
    ensures
        r == first_dot_at(s@, from as int),
        from <= r <= n,
{
    let mut i: usize = from;
    while i < n
        invariant
            from <= i <= n,
            forall|k: int| from <= k < i ==> s@[k] != '.',
        decreases n - i,
    {
        if s.get_char(i) == '.' {
            proof {
                lemma_first_dot_at_of(s@, from as int, i as int);
            }
            return i;
        }
        i = i + 1;
    }
    proof {
        lemma_first_dot_at_of(s@, from as int, n as int);
    }
    n
}

/// Parses the characters of `[a, b)` as `i32::from_str` does: an optional
/// sign, then decimal digits, rejecting anything else and values out of
/// `i32`'s range.
#[verifier::loop_isolation(false)]
fn parse_i32_range(s: &str, a: usize, b: usize) -> (r: Option<i32>)
    requires
        a <= b <= s@.len(),
    ensures
        match parse_i32(s@.subrange(a as int, b as int)) {
            Some(v) => r matches Some(q) && q == v,
            None => r is None,
        },
{
    let ghost part = s@.subrange(a as int, b as int);
    if a == b {
        return None;
    }
    let c0 = s.get_char(a);
    let neg = c0 == '-';
    let start: usize = if c0 == '-' || c0 == '+' {
        a + 1
    } else {
        a
    };
    let ghost digits = s@.subrange(start as int, b as int);
    proof {
        assert(part[0] == c0);
        if c0 == '-' || c0 == '+' {
            assert(part.skip(1) =~= digits);
        } else {
            assert(part =~= digits);
        }
    }
    if start == b {
        return None;
    }
    let mut acc: u64 = 0;
    let mut i: usize = start;
    while i < b
        invariant
            start <= i <= b,
            all_digits(s@.subrange(start as int, i as int)),
            acc == dec_val(s@.subrange(start as int, i as int)),
            acc <= 0xFFFFFFFF,
        decreases b - i,
    {
        let c = s.get_char(i);
        let cv = c as u32;
        if cv < 48 || cv > 57 {
            proof {
                assert(digits[i - start] == c);
                assert(!is_dec_digit(c));
                assert(!all_digits(digits));
            }
            return None;
        }
        let d: u64 = (cv - 48) as u64;
        acc = acc * 10 + d;
        i = i + 1;
        proof {
            let t = s@.subrange(start as int, i as int);
            assert(t.drop_last() =~= s@.subrange(start as int, i - 1));
            assert(t.last() == c);
        }
        if acc > 0xFFFFFFFF {
            proof {
                if all_digits(digits) {
                    assert(s@.subrange(start as int, i as int) =~= digits.subrange(0, i - start));
                    lemma_dec_val_prefix(digits, i - start);
                }
            }
            return None;
        }
    }
    proof {
        assert(s@.subrange(start as int, i as int) =~= digits);
    }
    if neg {
        if acc > 2147483648 {
            return None;
        }
        Some((-(acc as i64)) as i32)
    } else {
        if acc > 2147483647 {
            return None;
        }
        Some(acc as i32)
    }
}

/// Parses a region file name into its two coordinates; `None` when the
/// name does not match `r.<x>.<z>.mca` with in-range decimal coordinates.
#[verifier::loop_isolation(false)]
pub fn parse_coords(filename: &str) -> (r: Option<(i32, i32)>)
    ensures
        match parse_region_filename(filename@) {
            Some(p) => r matches Some(q) && q.0 == p.0 && q.1 == p.1,
            None => r is None,
        },
{
    let ghost s = filename@;
    let n = filename.unicode_len();
    let d1 = find_dot(filename, 0, n);
    if d1 >= n {
        return None;
    }
    let d2 = find_dot(filename, d1 + 1, n);
    if d2 >= n {
        return None;
    }
    let d3 = find_dot(filename, d2 + 1, n);
    if d3 >= n {
        return None;
    }
    let d4 = find_dot(filename, d3 + 1, n);
    if d4 < n {
        return None;
    }
    if !(d1 == 1 && filename.get_char(0) == 'r') {
        proof {
            assert(s.subrange(0, d1 as int) != seq!['r']) by {
                if s.subrange(0, d1 as int) == seq!['r'] {
                    assert(s.subrange(0, d1 as int).len() == 1);
                    assert(s.subrange(0, d1 as int)[0] == 'r');
                    assert(s[0] == 'r');
                }
            }
        }
        return None;
    }
    proof {
        assert(s.subrange(0, d1 as int) =~= seq!['r']);
    }
    if !(n - d3 == 4 && filename.get_char(d3 + 1) == 'm' && filename.get_char(d3 + 2) == 'c'
        && filename.get_char(d3 + 3) == 'a') {
        proof {
            let tail = s.subrange(d3 + 1, n as int);
            assert(tail != seq!['m', 'c', 'a']) by {
                if tail == seq!['m', 'c', 'a'] {
                    assert(tail.len() == 3);
                    assert(tail[0] == 'm' && tail[1] == 'c' && tail[2] == 'a');
                    assert(s[d3 + 1] == 'm' && s[d3 + 2] == 'c' && s[d3 + 3] == 'a');
                }
            }
        }
        return None;
    }
    proof {
        assert(s.subrange(d3 + 1, n as int) =~= seq!['m', 'c', 'a']);
    }
    let xv = match parse_i32_range(filename, d1 + 1, d2) {
        Some(v) => v,
        None => {
            return None;
        },
    };
    let zv = match parse_i32_range(filename, d2 + 1, d3) {
        Some(v) => v,
        None => {
            return None;
        },
    };
    Some((xv, zv))
}

/// Appends a digit character to the string.
fn push_digit(s: &mut String, d: u8)
    requires
        d < 10,
    ensures
        final(s)@ == old(s)@ + seq![digit_char(d as int)],
{
    match d {
        0 => {
            proof {
                reveal_strlit("0");
            }
            s.append("0");
        },
        1 => {
            proof {
                reveal_strlit("1");
            }
            s.append("1");
        },
        2 => {
            proof {
                reveal_strlit("2");
            }
            s.append("2");
        },
        3 => {
            proof {
                reveal_strlit("3");
            }
            s.append("3");
        },
        4 => {
            proof {
                reveal_strlit("4");
            }
            s.append("4");
        },
        5 => {
            proof {
                reveal_strlit("5");
            }
            s.append("5");
        },
        6 => {
            proof {
                reveal_strlit("6");
            }
            s.append("6");
        },
        7 => {
            proof {
                reveal_strlit("7");
            }
            s.append("7");
        },
        8 => {
            proof {
                reveal_strlit("8");
            }
            s.append("8");
        },
        _ => {
            proof {
                reveal_strlit("9");
            }
            s.append("9");
        },
    }
}

/// Appends the decimal rendering of an unsigned value to the string.
#[verifier::loop_isolation(false)]
pub fn append_u64(s: &mut String, v: u64)
    ensures
        final(s)@ == old(s)@ + dec_digits(v as int),
{
    let mut n: u64 = v;
    let ghost m0 = n as int;
    let ghost base = s@;
    let mut digits: Vec<u8> = Vec::new();
    digits.push((n % 10) as u8);
    n = n / 10;
    while n > 0
        invariant
            0 <= n,
            digits@.len() >= 1,
            forall|j: int| 0 <= j < digits@.len() ==> #[trigger] digits@[j] < 10,
            dec_digits(m0) =~= (if n > 0 {
                dec_digits(n as int)
            } else {
                Seq::<char>::empty()
            }) + Seq::new(digits@.len(), |j: int| digit_char(digits@[digits@.len() - 1 - j] as int)),
        decreases n,
    {
        digits.push((n % 10) as u8);
        n = n / 10;
        proof {
            let dd = digits@;
            let rev = Seq::new(dd.len(), |j: int| digit_char(dd[dd.len() - 1 - j] as int));
            if n > 0 {
                assert(dec_digits(m0) =~= dec_digits(n as int) + rev);
            } else {
                assert(dec_digits(m0) =~= Seq::<char>::empty() + rev);
            }
        }
    }
    let ghost all = dec_digits(m0);
    let mut emitted: usize = 0;
    proof {
        assert(all.len() == digits@.len());
    }
    let total = digits.len();
    while emitted < total
        invariant
            emitted <= total,
            total == digits@.len(),
            all.len() == total,
            forall|j: int| 0 <= j < digits@.len() ==> #[trigger] digits@[j] < 10,
            forall|j: int|
                0 <= j < total ==> all[j] == digit_char(digits@[total - 1 - j] as int),
            s@ == base + all.subrange(0, emitted as int),
        decreases total - emitted,
    {
        push_digit(s, digits[total - 1 - emitted]);
        emitted = emitted + 1;
        proof {
            assert(s@ =~= base + all.subrange(0, emitted as int));
        }
    }
    proof {
        assert(all.subrange(0, all.len() as int) =~= all);
        assert(s@ =~= old(s)@ + dec_digits(v as int));
    }
}

/// Appends the decimal rendering of a signed value to the string.
#[verifier::loop_isolation(false)]
fn append_i32(s: &mut String, v: i32)
    ensures
        final(s)@ == old(s)@ + i32_dec_str(v as int),
{
    if v < 0 {
        proof {
            reveal_strlit("-");
        }
        s.append("-");
        append_u64(s, (-(v as i64)) as u64);
        proof {
            assert(s@ =~= old(s)@ + i32_dec_str(v as int));
        }
    } else {
        append_u64(s, v as u64);
    }
}

/// The coordinates of one region file: each unit is 32 chunks on a side.
#[derive(Debug, Ord, PartialOrd, Eq, PartialEq, Copy, Clone, Structural)]
pub struct RegionPosition {
    pub x: i32,
    pub z: i32,
}

impl RegionPosition {
    pub fn new(x: i32, z: i32) -> (r: RegionPosition)
        ensures
            r == (RegionPosition { x, z }),
    {
        RegionPosition { x, z }
    }

    /// The region holding a chunk with the given global chunk coordinates:
    /// each coordinate divided by 32, rounding toward negative infinity.
    pub fn from_chunk_position(chunk_x: i32, chunk_z: i32) -> (r: RegionPosition)
        ensures
            r.x as int == chunk_x as int / 32,
            r.z as int == chunk_z as int / 32,
    {
        let x = chunk_x >> 5;
        let z = chunk_z >> 5;
        proof {
            lemma_shr5_is_div32(chunk_x);
            lemma_shr5_is_div32(chunk_z);
        }
        RegionPosition::new(x, z)
    }

    /// Parses a region position from a file name of the `r.<x>.<z>.mca`
    /// grammar; any other name is invalid input.
    pub fn from_filename(filename: &str) -> (r: Result<RegionPosition, std::io::Error>)
        ensures
            match parse_region_filename(filename@) {
                Some(p) => r matches Ok(q) && q.x == p.0 && q.z == p.1,
                None => r is Err,
            },
    {
        match parse_coords(filename) {
            Some((x, z)) => Ok(RegionPosition::new(x, z)),
            None => Err(invalid_input_error()),
        }
    }

    /// The file name of this region: `r.<x>.<z>.mca`.
    pub fn filename(self) -> (r: String)
        ensures
            r@ == region_filename(self.x as int, self.z as int),
    {
        region_position_filename(self)
    }
}

/// The file name of a region at the given position: `r.<x>.<z>.mca`.
pub fn region_position_filename(pos: RegionPosition) -> (r: String)
    ensures
        r@ == region_filename(pos.x as int, pos.z as int),
{
    let mut s = String::new();
    proof {
        reveal_strlit("r.");
        reveal_strlit(".");
        reveal_strlit(".mca");
    }
    s.append("r.");
    append_i32(&mut s, pos.x);
    s.append(".");
    append_i32(&mut s, pos.z);
    s.append(".mca");
    proof {
        assert(s@ =~= region_filename(pos.x as int, pos.z as int));
    }
    s
}

/// Relies on std's `io::Error::from(ErrorKind)`: an error value of the
/// invalid-input kind, as a failed file name parse reports.
#[verifier::external_body]
fn invalid_input_error() -> std::io::Error {
    std::io::Error::from(std::io::ErrorKind::InvalidInput)
}

/// An arithmetic right shift by five is division by 32, rounding toward
/// negative infinity.
proof fn lemma_shr5_is_div32(x: i32)
    ensures
        (x >> 5) as int == x as int / 32,
{
    assert((x >> 5) * 32 <= x && x - ((x >> 5) * 32) < 32) by (bit_vector);
    lemma_fundamental_div_mod_converse(
        x as int,
        32,
        (x >> 5) as int,
        x as int - ((x >> 5) as int) * 32,
    );
}

/// A mask of the low five bits is the remainder of division by 32.
proof fn lemma_and31_is_mod32(x: i32)
    ensures
        (x & 31) as int == x as int % 32,
        0 <= (x & 31) < 32,
{
    assert((x & 31) == x - ((x >> 5) * 32) && 0 <= (x & 31) && (x & 31) < 32) by (bit_vector);
    lemma_shr5_is_div32(x);
    lemma_fundamental_div_mod_converse(
        x as int,
        32,
        (x >> 5) as int,
        x as int - ((x >> 5) as int) * 32,
    );
}

/// The coordinates of one chunk slot inside a region, both below 32.
#[derive(Debug, Ord, PartialOrd, Eq, PartialEq, Copy, Clone, Structural)]
pub struct RegionChunkPosition {
    pub x: u8,
    pub z: u8,
}

impl RegionChunkPosition {
    /// Coordinates at or past 32 do not name a slot: they are a caller
    /// error, not a runtime condition.
    pub fn new(x: u8, z: u8) -> (r: RegionChunkPosition)
        requires
            x < 32,
            z < 32,
        ensures
            r == (RegionChunkPosition { x, z }),
    {
        RegionChunkPosition { x, z }
    }

    /// The slot of a chunk with the given global chunk coordinates: each
    /// coordinate modulo 32, so negative coordinates map correctly.
    pub fn from_chunk_position(chunk_x: i32, chunk_z: i32) -> (r: RegionChunkPosition)
        ensures
            r.x as int == chunk_x as int % 32,
            r.z as int == chunk_z as int % 32,
            r.x < 32,
            r.z < 32,
    {
        proof {
            lemma_and31_is_mod32(chunk_x);
            lemma_and31_is_mod32(chunk_z);
        }
        let x = (chunk_x & 31) as u8;
        let z = (chunk_z & 31) as u8;
        RegionChunkPosition::new(x, z)
    }

    /// The slot index of this position: `x + z * 32`.
    pub fn metadata_index(&self) -> (r: usize)
        requires
            self.x < 32,
            self.z < 32,
        ensures
            r == self.x + self.z * 32,
            r < 1024,
    {
        self.x as usize + self.z as usize * 32
    }
}

} // verus!
