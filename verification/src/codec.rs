//! The RESP2 codec.
//!
//! A request is an array of bulk strings: `*<n>\r\n` followed by `n`
//! elements `$<len>\r\n<bytes>\r\n`. The decoder consumes one frame
//! from a byte buffer or reports that more bytes are needed; a
//! malformed frame is fatal to the session. Numbers on the wire are
//! canonical decimals: no leading zeros and at most nineteen digits.
//!
//! The grammar lives in `spec_decode`; the executable decoder is
//! proved to agree with it on every input, in all three outcomes.

use vstd::prelude::*;
use vstd::string::StringSliceAdditionalSpecFns;

verus! {

pub const CR: u8 = 13;

pub const LF: u8 = 10;

/// A decimal digit.
pub open spec fn is_digit(b: u8) -> bool {
    48 <= b <= 57
}

/// End of the run of digits starting at `i`: the first index at or
/// after `i` holding no digit.
pub open spec fn digits_end(s: Seq<u8>, i: int) -> int
    recommends
        0 <= i <= s.len(),
    decreases s.len() - i,
{
    if 0 <= i < s.len() && is_digit(s[i]) {
        digits_end(s, i + 1)
    } else {
        i
    }
}

/// Value of the digit run `s[i..j)`, most significant first.
pub open spec fn num_val(s: Seq<u8>, i: int, j: int) -> int
    decreases j - i,
{
    if i >= j {
        0
    } else {
        num_val(s, i, j - 1) * 10 + (s[j - 1] - 48)
    }
}

/// Outcome of reading `<digits>\r\n` at a position: the buffer ends
/// first, the token is malformed, or a value with the position after
/// its CRLF.
pub enum NumTok {
    NumMore,
    NumBad,
    NumVal(int, int),
}

/// Read an unsigned canonical decimal followed by CRLF at `i`: at
/// least one digit, no leading zero, at most nineteen digits.
pub open spec fn spec_num(s: Seq<u8>, i: int) -> NumTok
    recommends
        0 <= i <= s.len(),
{
    let e = digits_end(s, i);
    if e - i > 19 {
        NumTok::NumBad
    } else if e < s.len() && e == i {
        NumTok::NumBad
    } else if e - i >= 2 && s[i] == 48 {
        NumTok::NumBad
    } else if e >= s.len() {
        NumTok::NumMore
    } else if s[e] != CR {
        NumTok::NumBad
    } else if e + 1 >= s.len() {
        NumTok::NumMore
    } else if s[e + 1] != LF {
        NumTok::NumBad
    } else {
        NumTok::NumVal(num_val(s, i, e), e + 2)
    }
}

/// Outcome of reading a run of bulk-string elements.
pub enum ElemsOut {
    EMore,
    EBad,
    EDone(Seq<Seq<u8>>, int),
}

/// Read `n` bulk strings starting at `i`. A nil bulk (`$-1\r\n`)
/// decodes as the empty argument.
pub open spec fn spec_elems(s: Seq<u8>, i: int, n: int) -> ElemsOut
    decreases n,
{
    if n <= 0 {
        ElemsOut::EDone(Seq::empty(), i)
    } else if i >= s.len() {
        ElemsOut::EMore
    } else if s[i] != 36 {  // '$'
        ElemsOut::EBad
    } else if i + 1 < s.len() && s[i + 1] == 45 {  // '-'
        if i + 2 >= s.len() {
            ElemsOut::EMore
        } else if s[i + 2] != 49 {  // '1'
            ElemsOut::EBad
        } else if i + 3 >= s.len() {
            ElemsOut::EMore
        } else if s[i + 3] != CR {
            ElemsOut::EBad
        } else if i + 4 >= s.len() {
            ElemsOut::EMore
        } else if s[i + 4] != LF {
            ElemsOut::EBad
        } else {
            match spec_elems(s, i + 5, n - 1) {
                ElemsOut::EDone(rest, j) => ElemsOut::EDone(seq![Seq::<u8>::empty()] + rest, j),
                other => other,
            }
        }
    } else {
        match spec_num(s, i + 1) {
            NumTok::NumMore => ElemsOut::EMore,
            NumTok::NumBad => ElemsOut::EBad,
            NumTok::NumVal(len, j) => {
                if j + len + 2 > s.len() {
                    ElemsOut::EMore
                } else if s[j + len] != CR || s[j + len + 1] != LF {
                    ElemsOut::EBad
                } else {
                    match spec_elems(s, j + len + 2, n - 1) {
                        ElemsOut::EDone(rest, k) => ElemsOut::EDone(
                            seq![s.subrange(j, j + len)] + rest,
                            k,
                        ),
                        other => other,
                    }
                }
            },
        }
    }
}

/// Outcome of reading one request frame.
pub enum SpecFrame {
    Frame(Seq<Seq<u8>>, int),
    More,
    Bad,
}

/// Read one request frame at `i`: `*<n>\r\n` with `1 <= n <= 1024`,
/// then `n` bulk strings. On success the second component is the
/// position after the frame.
pub open spec fn spec_decode(s: Seq<u8>, i: int) -> SpecFrame
    recommends
        0 <= i <= s.len(),
{
    if i >= s.len() {
        SpecFrame::More
    } else if s[i] != 42 {  // '*'
        SpecFrame::Bad
    } else {
        match spec_num(s, i + 1) {
            NumTok::NumMore => SpecFrame::More,
            NumTok::NumBad => SpecFrame::Bad,
            NumTok::NumVal(n, j) => {
                if n < 1 || n > 1024 {
                    SpecFrame::Bad
                } else {
                    match spec_elems(s, j, n) {
                        ElemsOut::EMore => SpecFrame::More,
                        ElemsOut::EBad => SpecFrame::Bad,
                        ElemsOut::EDone(args, k) => SpecFrame::Frame(args, k),
                    }
                }
            },
        }
    }
}

/// Powers of ten.
pub open spec fn pow10(n: nat) -> int
    decreases n,
{
    if n == 0 {
        1
    } else {
        10 * pow10((n - 1) as nat)
    }
}

/// A digit run of `j - i` digits is worth less than `pow10(j - i)`.
pub proof fn lemma_num_val_bound(s: Seq<u8>, i: int, j: int)
    requires
        i <= j,
        forall|x: int| i <= x < j ==> is_digit(s[x]),
    ensures
        0 <= num_val(s, i, j) < pow10((j - i) as nat),
    decreases j - i,
{
    if i < j {
        lemma_num_val_bound(s, i, j - 1);
        assert(is_digit(s[j - 1]));
    }
}

pub proof fn lemma_pow10_19()
    ensures
        pow10(19) == 10_000_000_000_000_000_000,
{
    reveal_with_fuel(pow10, 21);
}

/// Exec outcome of reading `<digits>\r\n`.
enum NumRes {
    More,
    Bad,
    Val(u64, usize),
}

/// Read an unsigned canonical decimal followed by CRLF, exactly as
/// `spec_num` describes.
fn parse_num(s: &Vec<u8>, i: usize) -> (r: NumRes)
    requires
        i <= s@.len(),
    ensures
        match r {
            NumRes::More => spec_num(s@, i as int) is NumMore,
            NumRes::Bad => spec_num(s@, i as int) is NumBad,
            NumRes::Val(v, j) => spec_num(s@, i as int) == NumTok::NumVal(v as int, j as int) && i
                < j <= s@.len(),
        },
{
    let mut e: usize = i;
    while e < s.len() && s[e] >= 48 && s[e] <= 57
        invariant
            i <= e <= s@.len(),
            digits_end(s@, i as int) == digits_end(s@, e as int),
            forall|x: int| i <= x < e ==> is_digit(s@[x]),
        decreases s@.len() - e,
    {
        e += 1;
    }
    proof {
        assert(digits_end(s@, e as int) == e);
    }
    if e - i > 19 {
        return NumRes::Bad;
    }
    if e < s.len() && e == i {
        return NumRes::Bad;
    }
    if e - i >= 2 && s[i] == 48 {
        return NumRes::Bad;
    }
    if e >= s.len() {
        return NumRes::More;
    }
    if s[e] != CR {
        return NumRes::Bad;
    }
    if e + 1 >= s.len() {
        return NumRes::More;
    }
    if s[e + 1] != LF {
        return NumRes::Bad;
    }
    let mut v: u64 = 0;
    let mut p: usize = i;
    proof {
        lemma_pow10_19();
    }
    while p < e
        invariant
            i <= p <= e,
            e - i <= 19,
            e <= s@.len(),
            forall|x: int| i <= x < e ==> is_digit(s@[x]),
            v == num_val(s@, i as int, p as int),
            pow10(19) == 10_000_000_000_000_000_000,
        decreases e - p,
    {
        proof {
            lemma_num_val_bound(s@, i as int, p as int);
            assert(pow10((p - i) as nat) <= pow10(18)) by {
                lemma_pow10_monotone((p - i) as nat, 18);
            }
            reveal_with_fuel(pow10, 2);
            assert(pow10(19) == 10 * pow10(18));
        }
        proof {
            assert(is_digit(s@[p as int]));
        }
        let d = s[p] - 48;
        v = v * 10 + (d as u64);
        p += 1;
    }
    NumRes::Val(v, e + 2)
}

/// `pow10` grows with the exponent.
pub proof fn lemma_pow10_monotone(a: nat, b: nat)
    requires
        a <= b,
    ensures
        pow10(a) <= pow10(b),
        pow10(a) >= 1,
    decreases b,
{
    if a < b {
        lemma_pow10_monotone(a, (b - 1) as nat);
    } else if b > 0 {
        lemma_pow10_monotone((a - 1) as nat, (b - 1) as nat);
    }
}

/// Exec outcome of reading one request frame.
pub enum Decoded {
    /// A complete frame: its arguments and the position just after it.
    Frame(Vec<Vec<u8>>, usize),
    /// The buffer holds no complete frame yet.
    More,
    /// The bytes at `start` are not a well-formed frame.
    Bad,
}

/// Read one request frame at `start`, exactly as `spec_decode`
/// describes: the same arguments, end position, and outcome on every
/// input.
pub fn decode_frame(s: &Vec<u8>, start: usize) -> (r: Decoded)
    requires
        start <= s@.len(),
    ensures
        match r {
            Decoded::Frame(args, end) => spec_decode(s@, start as int) == SpecFrame::Frame(
                args.deep_view(),
                end as int,
            ) && start < end <= s@.len(),
            Decoded::More => spec_decode(s@, start as int) is More,
            Decoded::Bad => spec_decode(s@, start as int) is Bad,
        },
{
    if start >= s.len() {
        return Decoded::More;
    }
    if s[start] != 42 {
        return Decoded::Bad;
    }
    let (n, mut pos) = match parse_num(s, start + 1) {
        NumRes::More => {
            return Decoded::More;
        },
        NumRes::Bad => {
            return Decoded::Bad;
        },
        NumRes::Val(v, j) => (v, j),
    };
    if n < 1 || n > 1024 {
        return Decoded::Bad;
    }
    let ghost total = n as int;
    let mut args: Vec<Vec<u8>> = Vec::new();
    let mut k: u64 = 0;
    proof {
        assert(args.deep_view() =~= Seq::<Seq<u8>>::empty());
        match spec_elems(s@, pos as int, total) {
            ElemsOut::EDone(rest, j2) => {
                assert(args.deep_view() + rest =~= rest);
            },
            _ => {},
        }
    }
    while k < n
        invariant
            0 <= k <= n,
            total == n as int,
            start < pos <= s@.len(),
            args.deep_view().len() == k,
            spec_decode(s@, start as int) == (match spec_elems(s@, pos as int, total - k) {
                ElemsOut::EDone(rest, j) => SpecFrame::Frame(args.deep_view() + rest, j),
                ElemsOut::EMore => SpecFrame::More,
                ElemsOut::EBad => SpecFrame::Bad,
            }),
        decreases n - k,
    {
        let ghost args0 = args.deep_view();
        let ghost pos0 = pos as int;
        let ghost m = total - k;
        if pos >= s.len() {
            proof {
                assert(spec_elems(s@, pos0, m) is EMore);
            }
            return Decoded::More;
        }
        if s[pos] != 36 {
            proof {
                assert(spec_elems(s@, pos0, m) is EBad);
            }
            return Decoded::Bad;
        }
        if pos + 1 < s.len() && s[pos + 1] == 45 {
            // nil bulk: exactly `$-1` then CRLF; it stands for the
            // empty argument
            if pos + 2 >= s.len() {
                proof {
                    assert(spec_elems(s@, pos0, m) is EMore);
                }
                return Decoded::More;
            }
            if s[pos + 2] != 49 {
                proof {
                    assert(spec_elems(s@, pos0, m) is EBad);
                }
                return Decoded::Bad;
            }
            if pos + 3 >= s.len() {
                proof {
                    assert(spec_elems(s@, pos0, m) is EMore);
                }
                return Decoded::More;
            }
            if s[pos + 3] != CR {
                proof {
                    assert(spec_elems(s@, pos0, m) is EBad);
                }
                return Decoded::Bad;
            }
            if pos + 4 >= s.len() {
                proof {
                    assert(spec_elems(s@, pos0, m) is EMore);
                }
                return Decoded::More;
            }
            if s[pos + 4] != LF {
                proof {
                    assert(spec_elems(s@, pos0, m) is EBad);
                }
                return Decoded::Bad;
            }
            args.push(Vec::new());
            pos = pos + 5;
            k += 1;
            proof {
                assert(args.deep_view() =~~= args0 + seq![Seq::<u8>::empty()]);
                lemma_elems_shift(s@, pos0, total - k + 1, args0, Seq::<u8>::empty(), pos as int);
            }
        } else {
            let (len, j) = match parse_num(s, pos + 1) {
                NumRes::More => {
                    proof {
                        assert(spec_elems(s@, pos0, m) is EMore);
                    }
                    return Decoded::More;
                },
                NumRes::Bad => {
                    proof {
                        assert(spec_elems(s@, pos0, m) is EBad);
                    }
                    return Decoded::Bad;
                },
                NumRes::Val(v, j) => (v, j),
            };
            let remaining = s.len() - j;
            if len > remaining as u64 {
                proof {
                    assert(j as int + len as int + 2 > s@.len());
                    assert(spec_elems(s@, pos0, m) is EMore);
                }
                return Decoded::More;
            }
            let lenu = len as usize;
            if remaining - lenu < 2 {
                proof {
                    assert(spec_elems(s@, pos0, m) is EMore);
                }
                return Decoded::More;
            }
            if s[j + lenu] != CR || s[j + lenu + 1] != LF {
                proof {
                    assert(spec_elems(s@, pos0, m) is EBad);
                }
                return Decoded::Bad;
            }
            let mut arg: Vec<u8> = Vec::new();
            let mut x: usize = j;
            let stop = j + lenu;
            while x < stop
                invariant
                    j <= x <= stop,
                    stop == j + lenu,
                    stop <= s@.len(),
                    arg@ == s@.subrange(j as int, x as int),
                decreases stop - x,
            {
                arg.push(s[x]);
                x += 1;
                proof {
                    assert(arg@ =~= s@.subrange(j as int, x as int));
                }
            }
            let ghost argv = arg@;
            args.push(arg);
            pos = j + lenu + 2;
            k += 1;
            proof {
                assert(args.deep_view() =~~= args0 + seq![argv]);
                lemma_elems_shift(s@, pos0, total - k + 1, args0, argv, pos as int);
            }
        }
    }
    proof {
        assert(spec_elems(s@, pos as int, 0) == ElemsOut::EDone(Seq::<Seq<u8>>::empty(), pos as int));
        assert(args.deep_view() + Seq::<Seq<u8>>::empty() =~= args.deep_view());
    }
    Decoded::Frame(args, pos)
}

/// After one element is read, the frame outcome re-anchors at the next
/// position with one argument moved into the prefix.
proof fn lemma_elems_shift(
    s: Seq<u8>,
    i: int,
    n: int,
    prefix: Seq<Seq<u8>>,
    arg: Seq<u8>,
    next: int,
)
    requires
        n >= 1,
        spec_elems(s, i, n) == (match spec_elems(s, next, n - 1) {
            ElemsOut::EDone(rest, j) => ElemsOut::EDone(seq![arg] + rest, j),
            other => other,
        }),
    ensures
        (match spec_elems(s, i, n) {
            ElemsOut::EDone(rest, j) => SpecFrame::Frame(prefix + rest, j),
            ElemsOut::EMore => SpecFrame::More,
            ElemsOut::EBad => SpecFrame::Bad,
        }) == (match spec_elems(s, next, n - 1) {
            ElemsOut::EDone(rest, j) => SpecFrame::Frame((prefix + seq![arg]) + rest, j),
            ElemsOut::EMore => SpecFrame::More,
            ElemsOut::EBad => SpecFrame::Bad,
        }),
{
    match spec_elems(s, next, n - 1) {
        ElemsOut::EDone(rest, j) => {
            assert(prefix + (seq![arg] + rest) =~= (prefix + seq![arg]) + rest);
        },
        _ => {},
    }
}

/// The CRLF terminator.
pub open spec fn crlf() -> Seq<u8> {
    seq![CR, LF]
}

/// Decimal digits of `n`, most significant first; empty when `n <= 0`.
pub open spec fn dec_digits(n: int) -> Seq<u8>
    decreases n,
{
    if n <= 0 {
        Seq::empty()
    } else {
        dec_digits(n / 10).push((48 + (n % 10)) as u8)
    }
}

/// Canonical decimal of `n`, with a leading minus sign if negative.
pub open spec fn dec_of(n: int) -> Seq<u8> {
    if n == 0 {
        seq![48u8]
    } else if n > 0 {
        dec_digits(n)
    } else {
        seq![45u8] + dec_digits(-n)
    }
}

/// Simple string `+TEXT\r\n`.
pub open spec fn enc_simple(t: Seq<u8>) -> Seq<u8> {
    seq![43u8] + t + crlf()
}

/// Simple error `-TEXT\r\n`.
pub open spec fn enc_error(t: Seq<u8>) -> Seq<u8> {
    seq![45u8] + t + crlf()
}

/// Integer `:N\r\n`.
pub open spec fn enc_int(n: int) -> Seq<u8> {
    seq![58u8] + dec_of(n) + crlf()
}

/// Bulk string `$<len>\r\n<bytes>\r\n`.
pub open spec fn enc_bulk(b: Seq<u8>) -> Seq<u8> {
    seq![36u8] + dec_of(b.len() as int) + crlf() + b + crlf()
}

/// Nil bulk `$-1\r\n`.
pub open spec fn enc_nil_bulk() -> Seq<u8> {
    seq![36u8, 45u8, 49u8] + crlf()
}

/// Back-to-back bulk strings.
pub open spec fn enc_bulks(items: Seq<Seq<u8>>) -> Seq<u8>
    decreases items.len(),
{
    if items.len() == 0 {
        Seq::empty()
    } else {
        enc_bulk(items[0]) + enc_bulks(items.drop_first())
    }
}

/// Array `*<n>\r\n` of bulk strings.
pub open spec fn enc_array(items: Seq<Seq<u8>>) -> Seq<u8> {
    seq![42u8] + dec_of(items.len() as int) + crlf() + enc_bulks(items)
}

/// One more bulk string extends the run at the back.
proof fn lemma_enc_bulks_push(items: Seq<Seq<u8>>, x: Seq<u8>)
    ensures
        enc_bulks(items.push(x)) == enc_bulks(items) + enc_bulk(x),
    decreases items.len(),
{
    if items.len() == 0 {
        assert(items.push(x)[0] == x);
        assert(items.push(x).drop_first() =~= Seq::<Seq<u8>>::empty());
        assert(enc_bulks(items.push(x)) == enc_bulk(x) + enc_bulks(items.push(x).drop_first()));
        assert(enc_bulk(x) + Seq::<u8>::empty() =~= enc_bulk(x));
        assert(Seq::<u8>::empty() + enc_bulk(x) =~= enc_bulk(x));
    } else {
        assert(items.push(x)[0] == items[0]);
        assert(items.push(x).drop_first() =~= items.drop_first().push(x));
        assert(enc_bulks(items.push(x)) == enc_bulk(items[0]) + enc_bulks(
            items.drop_first().push(x),
        ));
        assert(enc_bulks(items) == enc_bulk(items[0]) + enc_bulks(items.drop_first()));
        lemma_enc_bulks_push(items.drop_first(), x);
        assert(enc_bulk(items[0]) + (enc_bulks(items.drop_first()) + enc_bulk(x)) =~= (enc_bulk(
            items[0],
        ) + enc_bulks(items.drop_first())) + enc_bulk(x));
    }
}

/// Append CRLF.
pub fn put_crlf(out: &mut Vec<u8>)
    ensures
        final(out)@ == old(out)@ + crlf(),
{
    out.push(CR);
    out.push(LF);
    proof {
        assert(out@ =~= old(out)@ + crlf());
    }
}

/// Append the bytes of an ASCII text.
pub fn put_str(out: &mut Vec<u8>, s: &str)
    ensures
        final(out)@ == old(out)@ + s.spec_bytes(),
{
    let b = s.as_bytes();
    let ghost base = out@;
    let mut i: usize = 0;
    proof {
        assert(out@ =~= base + b@.take(0));
    }
    while i < b.len()
        invariant
            i <= b@.len(),
            out@ == base + b@.take(i as int),
        decreases b@.len() - i,
    {
        out.push(b[i]);
        i += 1;
        proof {
            assert(out@ =~= base + b@.take(i as int));
        }
    }
    proof {
        assert(b@.take(b@.len() as int) =~= b@);
    }
}

/// Append a byte string as it stands.
pub fn put_bytes(out: &mut Vec<u8>, b: &Vec<u8>)
    ensures
        final(out)@ == old(out)@ + b@,
{
    let ghost base = out@;
    let mut i: usize = 0;
    proof {
        assert(out@ =~= base + b@.take(0));
    }
    while i < b.len()
        invariant
            i <= b@.len(),
            out@ == base + b@.take(i as int),
        decreases b@.len() - i,
    {
        out.push(b[i]);
        i += 1;
        proof {
            assert(out@ =~= base + b@.take(i as int));
        }
    }
    proof {
        assert(b@.take(b@.len() as int) =~= b@);
    }
}

/// Append the canonical decimal of `n`.
pub fn put_u64(out: &mut Vec<u8>, n: u64)
    ensures
        final(out)@ == old(out)@ + dec_of(n as int),
{
    if n == 0 {
        out.push(48);
        proof {
            assert(out@ =~= old(out)@ + dec_of(0));
        }
        return ;
    }
    let mut tmp: Vec<u8> = Vec::new();
    let mut m = n;
    while m > 0
        invariant
            dec_digits(n as int) == dec_digits(m as int) + tmp@.reverse(),
        decreases m,
    {
        let ghost tmp0 = tmp@;
        let ghost m0 = m as int;
        let d = 48 + (m % 10) as u8;
        tmp.push(d);
        m = m / 10;
        proof {
            assert(tmp@.reverse() =~= seq![d] + tmp0.reverse());
            assert(dec_digits(m0) == dec_digits(m0 / 10).push(d));
            assert(dec_digits(m0 / 10).push(d) =~= dec_digits(m0 / 10) + seq![d]);
            assert(dec_digits(m0 / 10) + (seq![d] + tmp0.reverse()) =~= (dec_digits(m0 / 10)
                + seq![d]) + tmp0.reverse());
        }
    }
    proof {
        assert(Seq::<u8>::empty() + tmp@.reverse() =~= tmp@.reverse());
        assert(dec_digits(n as int) == tmp@.reverse());
    }
    let ghost base = out@;
    let total = tmp.len();
    let mut j: usize = 0;
    proof {
        assert(out@ =~= base + dec_digits(n as int).take(0));
    }
    while j < total
        invariant
            j <= total,
            total == tmp@.len(),
            dec_digits(n as int) == tmp@.reverse(),
            out@ == base + dec_digits(n as int).take(j as int),
        decreases total - j,
    {
        out.push(tmp[total - 1 - j]);
        j += 1;
        proof {
            assert(tmp@.reverse()[j - 1] == tmp@[total - j]);
            assert(out@ =~= base + dec_digits(n as int).take(j as int));
        }
    }
    proof {
        assert(dec_digits(n as int).take(tmp@.len() as int) =~= dec_digits(n as int));
    }
}

/// Append a simple-string reply.
pub fn put_simple_str(out: &mut Vec<u8>, t: &str)
    ensures
        final(out)@ == old(out)@ + enc_simple(t.spec_bytes()),
{
    out.push(43);
    put_str(out, t);
    put_crlf(out);
    proof {
        assert(out@ =~= old(out)@ + enc_simple(t.spec_bytes()));
    }
}

/// Append a simple-error reply.
pub fn put_error_str(out: &mut Vec<u8>, t: &str)
    ensures
        final(out)@ == old(out)@ + enc_error(t.spec_bytes()),
{
    out.push(45);
    put_str(out, t);
    put_crlf(out);
    proof {
        assert(out@ =~= old(out)@ + enc_error(t.spec_bytes()));
    }
}

/// Append an integer reply.
pub fn put_int(out: &mut Vec<u8>, n: u64)
    ensures
        final(out)@ == old(out)@ + enc_int(n as int),
{
    out.push(58);
    put_u64(out, n);
    put_crlf(out);
    proof {
        assert(out@ =~= old(out)@ + enc_int(n as int));
    }
}

/// Append a bulk-string reply.
pub fn put_bulk(out: &mut Vec<u8>, b: &Vec<u8>)
    ensures
        final(out)@ == old(out)@ + enc_bulk(b@),
{
    out.push(36);
    put_u64(out, b.len() as u64);
    put_crlf(out);
    put_bytes(out, b);
    put_crlf(out);
    proof {
        assert(out@ =~= old(out)@ + enc_bulk(b@));
    }
}

/// Append a nil-bulk reply.
pub fn put_nil_bulk(out: &mut Vec<u8>)
    ensures
        final(out)@ == old(out)@ + enc_nil_bulk(),
{
    out.push(36);
    out.push(45);
    out.push(49);
    put_crlf(out);
    proof {
        assert(out@ =~= old(out)@ + enc_nil_bulk());
    }
}

/// Append an array reply of bulk strings.
pub fn put_array(out: &mut Vec<u8>, items: &Vec<Vec<u8>>)
    ensures
        final(out)@ == old(out)@ + enc_array(items.deep_view()),
{
    let ghost dv = items.deep_view();
    out.push(42);
    put_u64(out, items.len() as u64);
    put_crlf(out);
    let ghost base = out@;
    let mut i: usize = 0;
    proof {
        assert(dv.len() == items@.len());
        assert(enc_bulks(dv.take(0)) =~= Seq::<u8>::empty());
        assert(out@ =~= base + enc_bulks(dv.take(0)));
    }
    while i < items.len()
        invariant
            i <= items@.len(),
            dv == items.deep_view(),
            dv.len() == items@.len(),
            out@ == base + enc_bulks(dv.take(i as int)),
        decreases items@.len() - i,
    {
        put_bulk(out, &items[i]);
        i += 1;
        proof {
            assert(items@[i - 1].deep_view() == dv[i - 1]);
            assert(dv.take(i as int) =~= dv.take(i - 1).push(dv[i - 1]));
            lemma_enc_bulks_push(dv.take(i - 1), dv[i - 1]);
            assert(out@ =~= base + enc_bulks(dv.take(i as int)));
        }
    }
    proof {
        assert(dv.take(dv.len() as int) =~= dv);
        assert(out@ =~= old(out)@ + enc_array(dv));
    }
}

/// A completed run of `n` elements yields exactly `n` arguments, and
/// ends within the buffer.
pub proof fn lemma_elems_len(s: Seq<u8>, i: int, n: int)
    requires
        n >= 0,
        0 <= i <= s.len(),
    ensures
        spec_elems(s, i, n) matches ElemsOut::EDone(rest, j) ==> rest.len() == n && i <= j
            <= s.len(),
    decreases n,
{
    if n > 0 {
        if i < s.len() && s[i] == 36 {
            if i + 1 < s.len() && s[i + 1] == 45 {
                if i + 4 < s.len() && s[i + 2] == 49 && s[i + 3] == CR && s[i + 4] == LF {
                    lemma_elems_len(s, i + 5, n - 1);
                }
            } else {
                match spec_num(s, i + 1) {
                    NumTok::NumVal(len, j) => {
                        lemma_spec_num_bounds(s, i + 1);
                        if j + len + 2 <= s.len() {
                            lemma_elems_len(s, j + len + 2, n - 1);
                        }
                    },
                    _ => {},
                }
            }
        }
    }
}

/// A parsed number is non-negative and its end lies within the buffer.
pub proof fn lemma_spec_num_bounds(s: Seq<u8>, i: int)
    requires
        0 <= i <= s.len(),
    ensures
        spec_num(s, i) matches NumTok::NumVal(v, j) ==> v >= 0 && i < j <= s.len(),
{
    let e = digits_end(s, i);
    lemma_digits_end_bounds(s, i);
    if spec_num(s, i) is NumVal {
        lemma_num_val_nonneg(s, i, e);
    }
}

/// `digits_end` never leaves the buffer.
proof fn lemma_digits_end_bounds(s: Seq<u8>, i: int)
    requires
        0 <= i <= s.len(),
    ensures
        i <= digits_end(s, i) <= s.len(),
        forall|x: int| i <= x < digits_end(s, i) ==> is_digit(#[trigger] s[x]),
    decreases s.len() - i,
{
    if i < s.len() && is_digit(s[i]) {
        lemma_digits_end_bounds(s, i + 1);
    }
}

/// The value of a digit run is non-negative.
proof fn lemma_num_val_nonneg(s: Seq<u8>, i: int, j: int)
    requires
        i <= j,
        forall|x: int| i <= x < j ==> is_digit(#[trigger] s[x]),
    ensures
        num_val(s, i, j) >= 0,
    decreases j - i,
{
    if i < j {
        lemma_num_val_nonneg(s, i, j - 1);
        assert(is_digit(s[j - 1]));
    }
}

/// `num_val` reads only the bytes between its bounds.
proof fn lemma_num_val_congruence(s1: Seq<u8>, s2: Seq<u8>, i: int, j: int)
    requires
        forall|x: int| i <= x < j ==> s1[x] == s2[x],
    ensures
        num_val(s1, i, j) == num_val(s2, i, j),
    decreases j - i,
{
    if i < j {
        lemma_num_val_congruence(s1, s2, i, j - 1);
    }
}

/// The canonical digits of `n >= 1`: at least one digit, all digits,
/// no leading zero, reading back as `n`, and no longer than any `d`
/// with `n < pow10(d)`.
proof fn lemma_dec_digits(n: int, d: nat)
    requires
        1 <= n < pow10(d),
    ensures
        ({
            let g = dec_digits(n);
            &&& 1 <= g.len() <= d
            &&& forall|x: int| 0 <= x < g.len() ==> is_digit(#[trigger] g[x])
            &&& g[0] != 48
            &&& num_val(g, 0, g.len() as int) == n
        }),
    decreases n,
{
    let g = dec_digits(n);
    if n <= 9 {
        assert(dec_digits(n / 10) == Seq::<u8>::empty());
        assert(g =~= seq![(48 + n) as u8]);
        assert(num_val(g, 0, 1) == num_val(g, 0, 0) * 10 + (g[0] - 48));
        if d < 1 {
            lemma_pow10_monotone(d, 0);
            assert(false);
        }
    } else {
        let m = n / 10;
        assert(1 <= m < n);
        if d < 1 {
            lemma_pow10_monotone(d, 0);
            assert(false);
        }
        assert(pow10(d) == 10 * pow10((d - 1) as nat));
        assert(m < pow10((d - 1) as nat)) by {
            assert(n < 10 * pow10((d - 1) as nat));
            assert(m <= (10 * pow10((d - 1) as nat) - 1) / 10);
        }
        lemma_dec_digits(m, (d - 1) as nat);
        let gm = dec_digits(m);
        assert(g == gm.push((48 + (n % 10)) as u8));
        assert(forall|x: int| 0 <= x < gm.len() ==> g[x] == gm[x]);
        lemma_num_val_congruence(g, gm, 0, gm.len() as int);
        let glen = gm.len() as int;
        assert(num_val(g, 0, g.len() as int) == num_val(g, 0, glen) * 10 + (g[glen] - 48));
    }
}

/// The canonical decimal of `0 <= n < pow10(19)`, followed by CRLF,
/// reads back as `n`.
proof fn lemma_spec_num_roundtrip(s: Seq<u8>, i: int, n: int)
    requires
        0 <= n < pow10(19),
        0 <= i,
        i + dec_of(n).len() + 2 <= s.len(),
        forall|x: int| 0 <= x < dec_of(n).len() ==> s[i + x] == dec_of(n)[x],
        s[i + dec_of(n).len()] == CR,
        s[i + dec_of(n).len() + 1] == LF,
    ensures
        spec_num(s, i) == NumTok::NumVal(n, i + dec_of(n).len() + 2),
{
    let g = dec_of(n);
    if n == 0 {
        assert(g =~= seq![48u8]);
        assert(s[i + 0] == g[0]);
        assert(s[i] == 48);
        assert(is_digit(s[i]));
        assert(!is_digit(s[i + 1]));
        lemma_digits_end_exact(s, i, i + 1);
        assert(num_val(s, i, i + 1) == num_val(s, i, i) * 10 + (s[i] - 48));
    } else {
        lemma_dec_digits(n, 19);
        assert forall|x: int| i <= x < i + g.len() implies is_digit(#[trigger] s[x]) by {
            assert(s[i + (x - i)] == g[x - i]);
            assert(is_digit(g[x - i]));
        }
        assert(!is_digit(s[i + g.len()]));
        lemma_digits_end_exact(s, i, i + g.len());
        assert(g.len() <= 19);
        assert(s[i + 0] == g[0]);
        assert(s[i] != 48);
        assert(forall|x: int| 0 <= x < g.len() ==> s[i + x] == g[x]);
        lemma_num_val_shift(s, g, i, g.len() as int);
        assert(num_val(s, i, i + g.len()) == n);
    }
}

/// A digit run placed at offset `i` of `s` has the same value as at
/// the origin of `g`.
proof fn lemma_num_val_shift(s: Seq<u8>, g: Seq<u8>, i: int, j: int)
    requires
        0 <= j <= g.len(),
        forall|x: int| 0 <= x < g.len() ==> s[i + x] == g[x],
    ensures
        num_val(s, i, i + j) == num_val(g, 0, j),
    decreases j,
{
    if j > 0 {
        lemma_num_val_shift(s, g, i, j - 1);
        assert(s[i + (j - 1)] == g[j - 1]);
    }
}

/// The run of digits starting at `i` ends exactly at the first
/// non-digit.
proof fn lemma_digits_end_exact(s: Seq<u8>, i: int, j: int)
    requires
        0 <= i <= j < s.len(),
        forall|x: int| i <= x < j ==> is_digit(#[trigger] s[x]),
        !is_digit(s[j]),
    ensures
        digits_end(s, i) == j,
    decreases j - i,
{
    if i < j {
        assert(is_digit(s[i]));
        lemma_digits_end_exact(s, i + 1, j);
    }
}

/// A run of encoded bulk strings placed at offset `i` decodes back to
/// exactly those arguments.
#[verifier::rlimit(50)]
proof fn lemma_elems_roundtrip(s: Seq<u8>, i: int, args: Seq<Seq<u8>>)
    requires
        0 <= i,
        i + enc_bulks(args).len() <= s.len(),
        forall|x: int| 0 <= x < enc_bulks(args).len() ==> s[i + x] == enc_bulks(args)[x],
        forall|a: int| 0 <= a < args.len() ==> (#[trigger] args[a]).len() < pow10(19),
    ensures
        spec_elems(s, i, args.len() as int) == ElemsOut::EDone(args, i + enc_bulks(args).len()),
    decreases args.len(),
{
    if args.len() == 0 {
        assert(args =~= Seq::<Seq<u8>>::empty());
    } else {
        let a0 = args[0];
        let tail = args.drop_first();
        let big = pow10(19);
        assert(a0.len() < big);
        let dl = dec_of(a0.len() as int).len() as int;
        let ll = a0.len() as int;
        let eb = enc_bulk(a0);
        let ebl = eb.len() as int;
        assert(enc_bulks(args) == eb + enc_bulks(tail));
        assert(ebl == 5 + dl + ll) by {
            assert(eb.len() == 1 + dl + 2 + ll + 2);
        }
        assert forall|x: int| 0 <= x < ebl implies enc_bulks(args)[x] == eb[x] by {}
        assert(s[i + 0] == eb[0]);
        assert(eb[0] == 36);
        // the length token is a digit, so this is no nil bulk
        let g = dec_of(ll);
        if ll == 0 {
            assert(g =~= seq![48u8]);
            assert(is_digit(g[0]));
        } else {
            lemma_dec_digits(ll, 19);
        }
        assert forall|x: int| 0 <= x < dl implies s[i + 1 + x] == g[x] by {
            assert(s[i + (1 + x)] == enc_bulks(args)[1 + x]);
            assert(eb[1 + x] == g[x]);
        }
        assert(s[i + 1 + 0] == g[0]);
        assert(is_digit(s[i + 1]));
        assert(s[i + 1] != 45);
        assert(s[i + 1 + dl] == eb[1 + dl]);
        assert(eb[1 + dl] == CR);
        assert(s[i + 1 + dl + 1] == eb[2 + dl]);
        assert(eb[2 + dl] == LF);
        lemma_spec_num_roundtrip(s, i + 1, ll);
        assert(spec_num(s, i + 1) == NumTok::NumVal(ll, i + 3 + dl));
        let j = i + 3 + dl;
        assert forall|x: int| 0 <= x < ll implies s[j + x] == a0[x] by {
            assert(s[i + (3 + dl + x)] == enc_bulks(args)[3 + dl + x]);
            assert(eb[3 + dl + x] == a0[x]);
        }
        assert(s[j + ll] == eb[3 + dl + ll]);
        assert(eb[3 + dl + ll] == CR);
        assert(s[j + ll + 1] == eb[4 + dl + ll]);
        assert(eb[4 + dl + ll] == LF);
        assert(s.subrange(j, j + ll) =~= a0);
        let i2 = j + ll + 2;
        assert(i2 == i + ebl);
        assert forall|x: int| 0 <= x < enc_bulks(tail).len() implies s[i2 + x] == enc_bulks(
            tail,
        )[x] by {
            assert(s[i + (ebl + x)] == enc_bulks(args)[ebl + x]);
            assert(enc_bulks(args)[ebl + x] == enc_bulks(tail)[x]);
        }
        assert forall|a: int| 0 <= a < tail.len() implies (#[trigger] tail[a]).len() < pow10(
            19,
        ) by {
            assert(tail[a] == args[a + 1]);
        }
        lemma_elems_roundtrip(s, i2, tail);
        assert(seq![a0] + tail =~= args);
        assert(i2 + enc_bulks(tail).len() == i + enc_bulks(args).len());
    }
}

/// A request frame produced by the encoder decodes back to exactly
/// its arguments, whatever bytes follow it in the buffer.
#[verifier::rlimit(100)]
pub proof fn lemma_request_roundtrip(args: Seq<Seq<u8>>, rest: Seq<u8>)
    requires
        1 <= args.len() <= 1024,
        forall|a: int| 0 <= a < args.len() ==> (#[trigger] args[a]).len() < pow10(19),
    ensures
        spec_decode(enc_array(args) + rest, 0) == SpecFrame::Frame(
            args,
            enc_array(args).len() as int,
        ),
{
    let s = enc_array(args) + rest;
    let e = enc_array(args);
    let n = args.len() as int;
    let g = dec_of(n);
    let dl = g.len() as int;
    lemma_pow10_19();
    lemma_dec_digits(n, 19);
    assert forall|x: int| 0 <= x < e.len() implies s[0 + x] == e[x] by {}
    let zero: int = 0;
    assert(s[zero + 0] == e[0]);
    assert(e[0] == 42);
    assert forall|x: int| 0 <= x < dl implies s[1 + x] == g[x] by {
        assert(s[0 + (1 + x)] == e[1 + x]);
        assert(e[1 + x] == g[x]);
    }
    assert(s[0 + (1 + dl)] == e[1 + dl]);
    assert(e[1 + dl] == CR);
    assert(s[0 + (2 + dl)] == e[2 + dl]);
    assert(e[2 + dl] == LF);
    assert(s[1 + dl] == CR);
    assert(s[1 + dl + 1] == LF);
    lemma_spec_num_roundtrip(s, 1, n);
    let j = 3 + dl;
    assert forall|x: int| 0 <= x < enc_bulks(args).len() implies s[j + x] == enc_bulks(
        args,
    )[x] by {
        assert(s[0 + (j + x)] == e[j + x]);
        assert(e[j + x] == enc_bulks(args)[x]);
    }
    assert(j + enc_bulks(args).len() <= s.len()) by {
        assert(e.len() == 3 + dl + enc_bulks(args).len());
    }
    lemma_elems_roundtrip(s, j, args);
    assert(j + enc_bulks(args).len() == e.len());
}

} // verus!
