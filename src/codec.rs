use vstd::prelude::*;
use crate::error::DecodeError;

verus! {

/// Length of a serialized keypair: 32 secret-seed bytes, then the 32-byte public key.
pub const KEYPAIR_LEN: usize = 64;

/// An Ed25519 keypair as its 64 raw bytes (secret seed, then public key).
pub struct Keypair {
    pub bytes: Vec<u8>,
}

impl Keypair {
    /// The raw bytes have the length of a keypair.
    pub open spec fn wf(&self) -> bool {
        self.bytes@.len() == KEYPAIR_LEN
    }

    /// The 32 public-key bytes.
    pub open spec fn public_key(&self) -> Seq<u8> {
        self.bytes@.skip(32)
    }
}

/// ASCII code of `,`.
pub const COMMA: u8 = 44;
/// ASCII code of `[`.
pub const OPEN_BRACKET: u8 = 91;
/// ASCII code of `]`.
pub const CLOSE_BRACKET: u8 = 93;
/// ASCII code of `+`.
pub const PLUS: u8 = 43;
/// ASCII code of `0`.
pub const ZERO: u8 = 48;

/// An ASCII decimal digit.
pub open spec fn is_digit(c: u8) -> bool {
    ZERO <= c <= ZERO + 9
}

/// ASCII whitespace: space, tab, line feed, vertical tab, form feed, carriage return.
pub open spec fn is_ascii_space(c: u8) -> bool {
    c == 32 || (9 <= c <= 13)
}

/// UTF-8 of the two-byte whitespace characters U+0085 and U+00A0.
pub open spec fn is_space2(a: u8, b: u8) -> bool {
    a == 0xC2 && (b == 0x85 || b == 0xA0)
}

/// UTF-8 of the three-byte whitespace characters U+1680, U+2000 to U+200A, U+2028,
/// U+2029, U+202F, U+205F and U+3000.
pub open spec fn is_space3(a: u8, b: u8, c: u8) -> bool {
    (a == 0xE1 && b == 0x9A && c == 0x80)
        || (a == 0xE2 && b == 0x80 && ((0x80 <= c <= 0x8A) || c == 0xA8 || c == 0xA9 || c == 0xAF))
        || (a == 0xE2 && b == 0x81 && c == 0x9F)
        || (a == 0xE3 && b == 0x80 && c == 0x80)
}

/// Length in bytes of the whitespace character that starts `s`, or 0 when none does.
pub open spec fn space_prefix_len(s: Seq<u8>) -> nat {
    if s.len() >= 1 && is_ascii_space(s[0]) {
        1
    } else if s.len() >= 2 && is_space2(s[0], s[1]) {
        2
    } else if s.len() >= 3 && is_space3(s[0], s[1], s[2]) {
        3
    } else {
        0
    }
}

/// Length in bytes of the whitespace character that ends `s`, or 0 when none does.
pub open spec fn space_suffix_len(s: Seq<u8>) -> nat {
    let n = s.len() as int;
    if n >= 1 && is_ascii_space(s[n - 1]) {
        1
    } else if n >= 2 && is_space2(s[n - 2], s[n - 1]) {
        2
    } else if n >= 3 && is_space3(s[n - 3], s[n - 2], s[n - 1]) {
        3
    } else {
        0
    }
}

/// `[` or `]`.
pub open spec fn is_bracket(c: u8) -> bool {
    c == OPEN_BRACKET || c == CLOSE_BRACKET
}

/// Length of the bracket or whitespace character that starts `s`, or 0.
pub open spec fn outer_prefix_len(s: Seq<u8>) -> nat {
    if s.len() >= 1 && is_bracket(s[0]) {
        1
    } else {
        space_prefix_len(s)
    }
}

/// Length of the bracket or whitespace character that ends `s`, or 0.
pub open spec fn outer_suffix_len(s: Seq<u8>) -> nat {
    if s.len() >= 1 && is_bracket(s.last()) {
        1
    } else {
        space_suffix_len(s)
    }
}

/// Decimal digits of a byte value, without leading zeros.
pub open spec fn decimal(b: u8) -> Seq<u8> {
    if b < 10 {
        seq![(ZERO + b) as u8]
    } else if b < 100 {
        seq![(ZERO + b / 10) as u8, (ZERO + b % 10) as u8]
    } else {
        seq![(ZERO + b / 100) as u8, (ZERO + (b / 10) % 10) as u8, (ZERO + b % 10) as u8]
    }
}

/// The byte values in decimal, separated by commas.
pub open spec fn joined_fields(bytes: Seq<u8>) -> Seq<u8>
    decreases bytes.len(),
{
    if bytes.len() == 0 {
        Seq::empty()
    } else if bytes.len() == 1 {
        decimal(bytes[0])
    } else {
        joined_fields(bytes.drop_last()) + seq![COMMA] + decimal(bytes.last())
    }
}

/// The canonical text of a keypair's bytes: `[b0,b1,...,b63]`.
pub open spec fn encoded(bytes: Seq<u8>) -> Seq<u8> {
    seq![OPEN_BRACKET] + joined_fields(bytes) + seq![CLOSE_BRACKET]
}

/// `s` without its leading brackets and whitespace.
pub open spec fn trim_start_outer(s: Seq<u8>) -> Seq<u8>
    decreases s.len(),
{
    if outer_prefix_len(s) > 0 {
        trim_start_outer(s.skip(outer_prefix_len(s) as int))
    } else {
        s
    }
}

/// `s` without its trailing brackets and whitespace.
pub open spec fn trim_end_outer(s: Seq<u8>) -> Seq<u8>
    decreases s.len(),
{
    if outer_suffix_len(s) > 0 {
        trim_end_outer(s.take(s.len() - outer_suffix_len(s)))
    } else {
        s
    }
}

/// `s` without its leading whitespace.
pub open spec fn trim_start_space(s: Seq<u8>) -> Seq<u8>
    decreases s.len(),
{
    if space_prefix_len(s) > 0 {
        trim_start_space(s.skip(space_prefix_len(s) as int))
    } else {
        s
    }
}

/// `s` without its trailing whitespace.
pub open spec fn trim_end_space(s: Seq<u8>) -> Seq<u8>
    decreases s.len(),
{
    if space_suffix_len(s) > 0 {
        trim_end_space(s.take(s.len() - space_suffix_len(s)))
    } else {
        s
    }
}

/// The pieces of `s` between commas (one piece when there is no comma).
pub open spec fn fields(s: Seq<u8>) -> Seq<Seq<u8>>
    decreases s.len(),
{
    if s.len() == 0 {
        seq![Seq::empty()]
    } else {
        let f = fields(s.drop_last());
        if s.last() == COMMA {
            f.push(Seq::empty())
        } else {
            f.update(f.len() - 1, f.last().push(s.last()))
        }
    }
}

/// The number that a sequence of decimal digits denotes.
pub open spec fn digits_value(d: Seq<u8>) -> int
    decreases d.len(),
{
    if d.len() == 0 {
        0
    } else {
        digits_value(d.drop_last()) * 10 + (d.last() - ZERO)
    }
}

/// Every element is a decimal digit.
pub open spec fn all_digits(d: Seq<u8>) -> bool {
    forall|i: int| 0 <= i < d.len() ==> #[trigger] is_digit(d[i])
}

/// `t` without one leading `+`, if it has one.
pub open spec fn unsigned_part(t: Seq<u8>) -> Seq<u8> {
    if t.len() > 0 && t[0] == PLUS {
        t.drop_first()
    } else {
        t
    }
}

/// The byte that a field denotes: surrounding whitespace, an optional `+`, then at
/// least one decimal digit, with a value of at most 255.
pub open spec fn field_value(f: Seq<u8>) -> Option<u8> {
    let d = unsigned_part(trim_end_space(trim_start_space(f)));
    if d.len() > 0 && all_digits(d) && digits_value(d) <= 255 {
        Some(digits_value(d) as u8)
    } else {
        None
    }
}

/// The bytes that the fields denote, when every field is a byte.
pub open spec fn parsed_fields(fs: Seq<Seq<u8>>) -> Option<Seq<u8>> {
    if forall|i: int| 0 <= i < fs.len() ==> #[trigger] field_value(fs[i]) is Some {
        Some(Seq::new(fs.len(), |i: int| field_value(fs[i])->0))
    } else {
        None
    }
}

/// What decoding `text` yields.
pub open spec fn decoded(text: Seq<u8>) -> Result<Seq<u8>, DecodeError> {
    match parsed_fields(fields(trim_end_outer(trim_start_outer(text)))) {
        None => Err(DecodeError::Malformed),
        Some(b) => if b.len() == KEYPAIR_LEN {
            Ok(b)
        } else {
            Err(DecodeError::WrongLength)
        },
    }
}

/// Appends the decimal digits of `b`.
fn push_decimal(out: &mut Vec<u8>, b: u8)
    ensures
        final(out)@ == old(out)@ + decimal(b),
{
    if b < 10 {
        out.push(ZERO + b);
    } else if b < 100 {
        out.push(ZERO + b / 10);
        out.push(ZERO + b % 10);
    } else {
        out.push(ZERO + b / 100);
        out.push(ZERO + (b / 10) % 10);
        out.push(ZERO + b % 10);
    }
    assert(out@ =~= old(out)@ + decimal(b));
}

/// The canonical text of a keypair: its 64 byte values in decimal, comma-separated,
/// between brackets, as UTF-8 bytes.
pub fn encode(keypair: &Keypair) -> (r: Vec<u8>)
    ensures
        r@ == encoded(keypair.bytes@),
{
    let bytes = &keypair.bytes;
    let mut out: Vec<u8> = Vec::new();
    out.push(OPEN_BRACKET);
    let mut i: usize = 0;
    while i < bytes.len()
        invariant
            i <= bytes@.len(),
            out@ == seq![OPEN_BRACKET] + joined_fields(bytes@.take(i as int)),
        decreases bytes@.len() - i,
    {
        let ghost prev = out@;
        if i > 0 {
            out.push(COMMA);
        }
        push_decimal(&mut out, bytes[i]);
        proof {
            let t = bytes@.take(i + 1);
            assert(t.drop_last() =~= bytes@.take(i as int));
            assert(t.last() == bytes@[i as int]);
            if i == 0 {
                assert(joined_fields(bytes@.take(0)) =~= Seq::<u8>::empty());
            }
            assert(out@ =~= seq![OPEN_BRACKET] + joined_fields(t));
        }
        i = i + 1;
    }
    out.push(CLOSE_BRACKET);
    assert(bytes@.take(bytes@.len() as int) =~= bytes@);
    assert(out@ =~= encoded(bytes@));
    out
}

/// A prefix of an all-digit sequence denotes no more than the whole.
proof fn lemma_digits_monotone(d: Seq<u8>, j: int)
    requires
        0 <= j <= d.len(),
        forall|i: int| 0 <= i < d.len() ==> #[trigger] is_digit(d[i]),
    ensures
        0 <= digits_value(d.take(j)) <= digits_value(d),
    decreases d.len(),
{
    if j == d.len() {
        assert(d.take(j) =~= d);
        if d.len() > 0 {
            assert(is_digit(d[d.len() - 1]));
            lemma_digits_monotone(d.drop_last(), 0);
        }
    } else {
        assert(d.drop_last().take(j) =~= d.take(j));
        lemma_digits_monotone(d.drop_last(), j);
        assert(is_digit(d[d.len() - 1]));
    }
}

/// Executable form of `is_ascii_space`.
fn is_ascii_space_byte(c: u8) -> (r: bool)
    ensures
        r == is_ascii_space(c),
{
    c == 32 || (9 <= c && c <= 13)
}

/// Executable form of `is_space3`.
fn is_space3_bytes(a: u8, b: u8, c: u8) -> (r: bool)
    ensures
        r == is_space3(a, b, c),
{
    (a == 0xE1 && b == 0x9A && c == 0x80)
        || (a == 0xE2 && b == 0x80 && ((0x80 <= c && c <= 0x8A) || c == 0xA8 || c == 0xA9 || c == 0xAF))
        || (a == 0xE2 && b == 0x81 && c == 0x9F)
        || (a == 0xE3 && b == 0x80 && c == 0x80)
}

/// Executable form of `space_prefix_len` on `s[lo..hi]`.
fn space_prefix_at(s: &Vec<u8>, lo: usize, hi: usize) -> (r: usize)
    requires
        lo <= hi <= s@.len(),
    ensures
        r == space_prefix_len(s@.subrange(lo as int, hi as int)),
{
    let n = hi - lo;
    if n >= 1 && is_ascii_space_byte(s[lo]) {
        1
    } else if n >= 2 && s[lo] == 0xC2 && (s[lo + 1] == 0x85 || s[lo + 1] == 0xA0) {
        2
    } else if n >= 3 && is_space3_bytes(s[lo], s[lo + 1], s[lo + 2]) {
        3
    } else {
        0
    }
}

/// Executable form of `space_suffix_len` on `s[lo..hi]`.
fn space_suffix_at(s: &Vec<u8>, lo: usize, hi: usize) -> (r: usize)
    requires
        lo <= hi <= s@.len(),
    ensures
        r == space_suffix_len(s@.subrange(lo as int, hi as int)),
{
    let n = hi - lo;
    if n >= 1 && is_ascii_space_byte(s[hi - 1]) {
        1
    } else if n >= 2 && s[hi - 2] == 0xC2 && (s[hi - 1] == 0x85 || s[hi - 1] == 0xA0) {
        2
    } else if n >= 3 && is_space3_bytes(s[hi - 3], s[hi - 2], s[hi - 1]) {
        3
    } else {
        0
    }
}

/// Executable form of `outer_prefix_len` on `s[lo..hi]`.
fn outer_prefix_at(s: &Vec<u8>, lo: usize, hi: usize) -> (r: usize)
    requires
        lo <= hi <= s@.len(),
    ensures
        r == outer_prefix_len(s@.subrange(lo as int, hi as int)),
{
    if hi > lo && (s[lo] == OPEN_BRACKET || s[lo] == CLOSE_BRACKET) {
        1
    } else {
        space_prefix_at(s, lo, hi)
    }
}

/// Executable form of `outer_suffix_len` on `s[lo..hi]`.
fn outer_suffix_at(s: &Vec<u8>, lo: usize, hi: usize) -> (r: usize)
    requires
        lo <= hi <= s@.len(),
    ensures
        r == outer_suffix_len(s@.subrange(lo as int, hi as int)),
{
    if hi > lo && (s[hi - 1] == OPEN_BRACKET || s[hi - 1] == CLOSE_BRACKET) {
        1
    } else {
        space_suffix_at(s, lo, hi)
    }
}

/// The byte that the field `s[lo..hi]` denotes, if any.
fn parse_field(s: &Vec<u8>, lo: usize, hi: usize) -> (r: Option<u8>)
    requires
        lo <= hi <= s@.len(),
    ensures
        r == field_value(s@.subrange(lo as int, hi as int)),
{
    let ghost f = s@.subrange(lo as int, hi as int);
    let mut a: usize = lo;
    loop
        invariant
            lo <= a <= hi <= s@.len(),
            trim_start_space(f) == trim_start_space(s@.subrange(a as int, hi as int)),
        ensures
            trim_start_space(f) == s@.subrange(a as int, hi as int),
        decreases hi - a,
    {
        let k = space_prefix_at(s, a, hi);
        if k == 0 {
            break;
        }
        assert(s@.subrange(a as int, hi as int).skip(k as int) =~= s@.subrange(a + k, hi as int));
        a = a + k;
    }
    let mut b: usize = hi;
    loop
        invariant
            lo <= a <= b <= hi <= s@.len(),
            trim_end_space(trim_start_space(f)) == trim_end_space(s@.subrange(a as int, b as int)),
        ensures
            trim_end_space(trim_start_space(f)) == s@.subrange(a as int, b as int),
        decreases b - a,
    {
        let k = space_suffix_at(s, a, b);
        if k == 0 {
            break;
        }
        assert(s@.subrange(a as int, b as int).take(b - a - k) =~= s@.subrange(a as int, b - k));
        b = b - k;
    }
    let ghost t = s@.subrange(a as int, b as int);
    if a < b && s[a] == PLUS {
        a = a + 1;
    }
    let ghost d = s@.subrange(a as int, b as int);
    assert(d =~= unsigned_part(t));
    if a >= b {
        return None;
    }
    let mut v: u32 = 0;
    let mut j: usize = a;
    while j < b
        invariant
            a <= j <= b <= s@.len(),
            d == s@.subrange(a as int, b as int),
            d.len() > 0,
            f == s@.subrange(lo as int, hi as int),
            unsigned_part(trim_end_space(trim_start_space(f))) == d,
            v == digits_value(d.take(j - a)),
            v <= 255,
            forall|i: int| 0 <= i < j - a ==> #[trigger] is_digit(d[i]),
        decreases b - j,
    {
        let c = s[j];
        if c < ZERO || c > ZERO + 9 {
            assert(!is_digit(d[j - a]));
            return None;
        }
        proof {
            assert(d.take(j - a + 1).drop_last() =~= d.take(j - a));
        }
        v = v * 10 + (c - ZERO) as u32;
        j = j + 1;
        if v > 255 {
            proof {
                lemma_all_digits(d, j - a);
            }
            return None;
        }
    }
    assert(d.take(j - a) =~= d);
    Some(v as u8)
}

/// Completes the proof of an overflowing field: when the digits read so far exceed
/// 255, either a later byte is no digit or the whole field exceeds 255.
proof fn lemma_all_digits(d: Seq<u8>, j: int)
    requires
        0 <= j <= d.len(),
        digits_value(d.take(j)) > 255,
        forall|i: int| 0 <= i < j ==> #[trigger] is_digit(d[i]),
    ensures
        !(all_digits(d) && digits_value(d) <= 255),
{
    if all_digits(d) {
        lemma_digits_monotone(d, j);
    }
}

/// The bounds of `s` once the outer brackets and whitespace are stripped.
fn trim_bounds(s: &Vec<u8>) -> (r: (usize, usize))
    ensures
        r.0 <= r.1 <= s@.len(),
        s@.subrange(r.0 as int, r.1 as int) == trim_end_outer(trim_start_outer(s@)),
{
    let mut a: usize = 0;
    assert(s@.subrange(0, s@.len() as int) =~= s@);
    loop
        invariant
            a <= s@.len(),
            trim_start_outer(s@) == trim_start_outer(s@.subrange(a as int, s@.len() as int)),
        ensures
            trim_start_outer(s@) == s@.subrange(a as int, s@.len() as int),
        decreases s@.len() - a,
    {
        let k = outer_prefix_at(s, a, s.len());
        if k == 0 {
            break;
        }
        assert(s@.subrange(a as int, s@.len() as int).skip(k as int) =~= s@.subrange(a + k, s@.len() as int));
        a = a + k;
    }
    let mut b: usize = s.len();
    loop
        invariant
            a <= b <= s@.len(),
            trim_end_outer(trim_start_outer(s@)) == trim_end_outer(s@.subrange(a as int, b as int)),
        ensures
            trim_end_outer(trim_start_outer(s@)) == s@.subrange(a as int, b as int),
        decreases b - a,
    {
        let k = outer_suffix_at(s, a, b);
        if k == 0 {
            break;
        }
        assert(s@.subrange(a as int, b as int).take(b - a - k) =~= s@.subrange(a as int, b - k));
        b = b - k;
    }
    (a, b)
}

/// Reads a keypair back from its text: strips brackets and whitespace at both ends,
/// splits on commas and reads each field as a byte.
pub fn decode(text: &Vec<u8>) -> (r: Result<Keypair, DecodeError>)
    ensures
        match decoded(text@) {
            Ok(b) => r matches Ok(k) && k.bytes@ == b,
            Err(e) => r == Err::<Keypair, DecodeError>(e),
        },
{
    let (lo, hi) = trim_bounds(text);
    let ghost t = text@.subrange(lo as int, hi as int);
    let mut values: Vec<u8> = Vec::new();
    let mut all_ok = true;
    let ghost mut done: Seq<Seq<u8>> = Seq::empty();
    let mut start: usize = lo;
    let mut i: usize = lo;
    assert(text@.subrange(lo as int, lo as int) =~= Seq::<u8>::empty());
    assert(fields(Seq::<u8>::empty()) =~= done.push(text@.subrange(lo as int, lo as int)));
    while i < hi
        invariant
            lo <= start <= i <= hi <= text@.len(),
            fields(text@.subrange(lo as int, i as int)) == done.push(text@.subrange(start as int, i as int)),
            all_ok == (forall|k: int| 0 <= k < done.len() ==> #[trigger] field_value(done[k]) is Some),
            all_ok ==> values@.len() == done.len(),
            all_ok ==> forall|k: int| 0 <= k < done.len() ==> #[trigger] field_value(done[k]) == Some(values@[k]),
        decreases hi - i,
    {
        let ghost cur = text@.subrange(start as int, i as int);
        assert(text@.subrange(lo as int, i + 1).drop_last() =~= text@.subrange(lo as int, i as int));
        if text[i] == COMMA {
            let f = parse_field(text, start, i);
            match f {
                Some(v) => {
                    if all_ok {
                        values.push(v);
                    }
                },
                None => {
                    all_ok = false;
                },
            }
            proof {
                let nd = done.push(cur);
                assert(nd[done.len() as int] == cur);
                assert(forall|k: int| 0 <= k < done.len() ==> nd[k] == done[k]);
                done = nd;
                assert(text@.subrange(i + 1, i + 1) =~= Seq::<u8>::empty());
            }
            start = i + 1;
        } else {
            assert(cur.push(text@[i as int]) =~= text@.subrange(start as int, i + 1));
            assert(done.push(cur).update(done.len() as int, cur.push(text@[i as int])) =~= done.push(text@.subrange(start as int, i + 1)));
        }
        i = i + 1;
    }
    let last = parse_field(text, start, hi);
    let ghost fs = done.push(text@.subrange(start as int, hi as int));
    assert(fs == fields(t));
    match last {
        Some(v) => {
            if all_ok {
                values.push(v);
            }
        },
        None => {
            all_ok = false;
        },
    }
    if !all_ok {
        proof {
            if forall|k: int| 0 <= k < fs.len() ==> #[trigger] field_value(fs[k]) is Some {
                assert forall|k: int| 0 <= k < done.len() implies #[trigger] field_value(done[k]) is Some by {
                    assert(fs[k] == done[k]);
                }
                assert(fs[done.len() as int] == text@.subrange(start as int, hi as int));
            }
        }
        return Err(DecodeError::Malformed);
    }
    proof {
        assert forall|k: int| 0 <= k < fs.len() implies #[trigger] field_value(fs[k]) == Some(values@[k]) by {
            if k < done.len() {
                assert(fs[k] == done[k]);
            }
        }
        assert(values@ =~= Seq::new(fs.len(), |k: int| field_value(fs[k])->0));
    }
    if values.len() != KEYPAIR_LEN {
        return Err(DecodeError::WrongLength);
    }
    Ok(Keypair { bytes: values })
}

/// The decimal digits of a byte: nonempty, comma-free, and read back as the byte.
proof fn lemma_decimal(b: u8)
    ensures
        decimal(b).len() > 0,
        all_digits(decimal(b)),
        field_value(decimal(b)) == Some(b),
        forall|i: int| 0 <= i < decimal(b).len() ==> #[trigger] decimal(b)[i] != COMMA,
{
    let d = decimal(b);
    reveal_with_fuel(digits_value, 4);
    assert(trim_start_space(d) == d);
    assert(trim_end_space(d) == d);
    assert(unsigned_part(d) == d);
    if b >= 100 {
        assert(d.drop_last() =~= seq![(ZERO + b / 100) as u8, (ZERO + (b / 10) % 10) as u8]);
        assert(d.drop_last().drop_last() =~= seq![(ZERO + b / 100) as u8]);
    } else if b >= 10 {
        assert(d.drop_last() =~= seq![(ZERO + b / 10) as u8]);
    }
    assert(digits_value(d) == b as int);
}

/// Splitting `x + y`, where `y` holds no comma, extends the last field of `x` by `y`.
proof fn lemma_fields_extend(x: Seq<u8>, y: Seq<u8>)
    requires
        forall|i: int| 0 <= i < y.len() ==> #[trigger] y[i] != COMMA,
    ensures
        fields(x).len() > 0,
        fields(x + y) == fields(x).update(fields(x).len() - 1, fields(x).last() + y),
    decreases y.len(),
{
    lemma_fields_nonempty(x);
    if y.len() == 0 {
        assert(x + y =~= x);
        assert(fields(x).last() + y =~= fields(x).last());
        assert(fields(x).update(fields(x).len() - 1, fields(x).last()) =~= fields(x));
    } else {
        let y1 = y.drop_last();
        lemma_fields_extend(x, y1);
        assert((x + y).drop_last() =~= x + y1);
        assert((x + y).last() == y.last());
        assert(y.last() != COMMA);
        let f1 = fields(x + y1);
        assert(f1.last() == fields(x).last() + y1);
        assert(fields(x).last() + y1.push(y.last()) =~= fields(x).last() + y);
        assert(f1.last().push(y.last()) =~= fields(x).last() + y);
        assert(f1.update(f1.len() - 1, f1.last().push(y.last())) =~= fields(x).update(fields(x).len() - 1, fields(x).last() + y));
    }
}

/// Splitting always yields at least one field.
proof fn lemma_fields_nonempty(x: Seq<u8>)
    ensures
        fields(x).len() > 0,
    decreases x.len(),
{
    if x.len() > 0 {
        lemma_fields_nonempty(x.drop_last());
    }
}

/// The fields of the joined decimals are the decimals, one per byte.
proof fn lemma_fields_joined(bytes: Seq<u8>)
    requires
        bytes.len() > 0,
    ensures
        fields(joined_fields(bytes)) == Seq::new(bytes.len(), |i: int| decimal(bytes[i])),
        joined_fields(bytes).len() > 0,
        is_digit(joined_fields(bytes)[0]),
        is_digit(joined_fields(bytes).last()),
    decreases bytes.len(),
{
    let last = bytes.last();
    lemma_decimal(last);
    let d = decimal(last);
    assert(is_digit(d[0]));
    assert(is_digit(d[d.len() - 1]));
    if bytes.len() == 1 {
        lemma_fields_extend(Seq::empty(), d);
        assert(Seq::<u8>::empty() + d =~= d);
        assert(fields(d) =~= Seq::new(bytes.len(), |i: int| decimal(bytes[i])));
    } else {
        let init = bytes.drop_last();
        lemma_fields_joined(init);
        let j = joined_fields(init);
        let jc = j + seq![COMMA];
        assert(jc.drop_last() =~= j);
        assert(fields(jc) == fields(j).push(Seq::empty()));
        lemma_fields_extend(jc, d);
        assert(Seq::<u8>::empty() + d =~= d);
        assert(fields(jc + d) =~= Seq::new(bytes.len(), |i: int| decimal(bytes[i])));
        assert(joined_fields(bytes) == jc + d);
        assert((jc + d)[0] == j[0]);
        assert((jc + d).last() == d.last());
    }
}

/// Decoding the canonical text of any nonempty byte sequence gives back its bytes,
/// or `WrongLength` when there are not 64 of them.
pub proof fn lemma_decode_encoded(bytes: Seq<u8>)
    requires
        bytes.len() > 0,
    ensures
        decoded(encoded(bytes)) == (if bytes.len() == KEYPAIR_LEN {
            Ok::<Seq<u8>, DecodeError>(bytes)
        } else {
            Err::<Seq<u8>, DecodeError>(DecodeError::WrongLength)
        }),
{
    lemma_fields_joined(bytes);
    let j = joined_fields(bytes);
    let e = encoded(bytes);
    assert(e.drop_first() =~= j + seq![CLOSE_BRACKET]);
    assert(trim_start_outer(e) == trim_start_outer(j + seq![CLOSE_BRACKET]));
    assert((j + seq![CLOSE_BRACKET])[0] == j[0]);
    assert(trim_start_outer(j + seq![CLOSE_BRACKET]) == j + seq![CLOSE_BRACKET]);
    assert((j + seq![CLOSE_BRACKET]).drop_last() =~= j);
    assert(trim_end_outer(j + seq![CLOSE_BRACKET]) == trim_end_outer(j));
    assert(trim_end_outer(j) == j);
    let fs = fields(j);
    assert forall|i: int| 0 <= i < fs.len() implies #[trigger] field_value(fs[i]) == Some(bytes[i]) by {
        lemma_decimal(bytes[i]);
    }
    assert(parsed_fields(fs) == Some(bytes)) by {
        assert(Seq::new(fs.len(), |i: int| field_value(fs[i])->0) =~= bytes);
    }
}

/// Decoding the encoding of a keypair gives the same keypair.
pub proof fn lemma_codec_round_trip(bytes: Seq<u8>)
    requires
        bytes.len() == KEYPAIR_LEN,
    ensures
        decoded(encoded(bytes)) == Ok::<Seq<u8>, DecodeError>(bytes),
{
    lemma_decode_encoded(bytes);
}

} // verus!
