//! The wire format of posts: a JSON object `{"message": <string>,
//! "timestamp": <integer>}`, and the JSON array of the whole history.
//! Encoding and parsing both work on the UTF-8 bytes of the document.

use vstd::prelude::*;

use crate::state::{Post, PostView};

verus! {

// ------------------------------------------------------------------
// Specification: decimal integers
// ------------------------------------------------------------------
/// Decimal digits of `n`, most significant first.
pub open spec fn dec_digits(n: nat) -> Seq<u8>
    decreases n,
{
    if n < 10 {
        seq![(48 + n) as u8]
    } else {
        dec_digits(n / 10).push((48 + n % 10) as u8)
    }
}

/// Decimal form of an integer, with a leading `-` when negative.
pub open spec fn dec_int(t: int) -> Seq<u8> {
    if t < 0 {
        seq![('-' as u8)] + dec_digits((-t) as nat)
    } else {
        dec_digits(t as nat)
    }
}

// ------------------------------------------------------------------
// Specification: string escaping
// ------------------------------------------------------------------
/// Lower-case hex digit of `n < 16`.
pub open spec fn hex_digit(n: nat) -> u8 {
    if n < 10 {
        (48 + n) as u8
    } else {
        (87 + n) as u8
    }
}

/// How one byte of a message appears inside a JSON string literal: quote,
/// backslash and control bytes are escaped, everything else stands as it is.
pub open spec fn esc_byte(b: u8) -> Seq<u8> {
    if b == ('"' as u8) {
        seq![('\\' as u8), ('"' as u8)]
    } else if b == ('\\' as u8) {
        seq![('\\' as u8), ('\\' as u8)]
    } else if b == 0x08 {
        seq![('\\' as u8), ('b' as u8)]
    } else if b == 0x09 {
        seq![('\\' as u8), ('t' as u8)]
    } else if b == 0x0a {
        seq![('\\' as u8), ('n' as u8)]
    } else if b == 0x0c {
        seq![('\\' as u8), ('f' as u8)]
    } else if b == 0x0d {
        seq![('\\' as u8), ('r' as u8)]
    } else if b < 0x20 {
        seq![('\\' as u8), ('u' as u8), ('0' as u8), ('0' as u8), hex_digit((b / 16) as nat), hex_digit((b % 16) as nat)]
    } else {
        seq![b]
    }
}

/// The escaped form of a whole message.
pub open spec fn escape_bytes(s: Seq<u8>) -> Seq<u8>
    decreases s.len(),
{
    if s.len() == 0 {
        Seq::<u8>::empty()
    } else {
        esc_byte(s[0]) + escape_bytes(s.drop_first())
    }
}

// ------------------------------------------------------------------
// Specification: documents
// ------------------------------------------------------------------
/// The bytes of the key `message`.
pub open spec fn msg_key() -> Seq<u8> {
    seq![('m' as u8), ('e' as u8), ('s' as u8), ('s' as u8), ('a' as u8), ('g' as u8), ('e' as u8)]
}

/// The bytes of the key `timestamp`.
pub open spec fn ts_key() -> Seq<u8> {
    seq![('t' as u8), ('i' as u8), ('m' as u8), ('e' as u8), ('s' as u8), ('t' as u8), ('a' as u8), ('m' as u8), ('p' as u8)]
}

/// The JSON encoding of one post: `{"message":"…","timestamp":…}`.
pub open spec fn post_json(p: PostView) -> Seq<u8> {
    seq![('{' as u8), ('"' as u8)] + msg_key() + seq![('"' as u8), (':' as u8), ('"' as u8)] + escape_bytes(p.message) + seq![
        ('"' as u8),
        (',' as u8),
        ('"' as u8),
    ] + ts_key() + seq![('"' as u8), (':' as u8)] + dec_int(p.timestamp) + seq![('}' as u8)]
}

/// The comma-joined bodies of a sequence of posts.
pub open spec fn posts_body(s: Seq<PostView>) -> Seq<u8>
    decreases s.len(),
{
    if s.len() == 0 {
        Seq::<u8>::empty()
    } else if s.len() == 1 {
        post_json(s[0])
    } else {
        posts_body(s.drop_last()) + seq![(',' as u8)] + post_json(s.last())
    }
}

/// The JSON encoding of the whole history, oldest first; an empty history
/// encodes as `[]`.
pub open spec fn posts_json(s: Seq<PostView>) -> Seq<u8> {
    seq![('[' as u8)] + posts_body(s) + seq![(']' as u8)]
}

// ------------------------------------------------------------------
// Encoder
// ------------------------------------------------------------------
/// Digits of `n`, most significant first.
fn dec_u64_vec(n: u64) -> (r: Vec<u8>)
    ensures
        r@ == dec_digits(n as nat),
{
    let mut digits: Vec<u8> = Vec::new();
    let mut m: u64 = n;
    let mut done: bool = false;
    while !done
        invariant
            !done ==> dec_digits(n as nat) =~= dec_digits(m as nat) + digits@,
            done ==> dec_digits(n as nat) =~= digits@,
        decreases m, (if done { 0int } else { 1int }),
    {
        let ghost before = digits@;
        let d: u8 = (m % 10) as u8 + 48;
        digits.insert(0, d);
        proof {
            assert(digits@ =~= seq![d] + before);
        }
        if m < 10 {
            done = true;
            proof {
                assert(dec_digits(m as nat) =~= seq![d]);
                assert(dec_digits(n as nat) =~= digits@);
            }
        } else {
            let ghost mn: nat = m as nat;
            m = m / 10;
            proof {
                assert(dec_digits(mn) =~= dec_digits(mn / 10).push((48 + mn % 10) as u8));
                assert(dec_digits(mn) =~= dec_digits(m as nat) + seq![d]);
                assert(dec_digits(n as nat) =~= dec_digits(m as nat) + digits@);
            }
        }
    }
    proof {
        assert(digits@ =~= dec_digits(n as nat));
    }
    digits
}

/// Append the decimal form of `t` to `out`.
fn push_dec_i64(out: &mut Vec<u8>, t: i64)
    ensures
        final(out)@ == old(out)@ + dec_int(t as int),
{
    let ghost prev = out@;
    if t >= 0 {
        let mut d = dec_u64_vec(t as u64);
        out.append(&mut d);
        proof {
            assert(out@ =~= prev + dec_int(t as int));
        }
    } else {
        out.push(('-' as u8));
        let m: u64 = ((-(t + 1)) as u64) + 1;
        proof {
            assert(m as int == -(t as int));
        }
        let mut d = dec_u64_vec(m);
        out.append(&mut d);
        proof {
            assert(out@ =~= prev + dec_int(t as int));
        }
    }
}

/// Append the escaped form of `msg` to `out`.
fn push_escaped(out: &mut Vec<u8>, msg: &Vec<u8>)
    ensures
        final(out)@ == old(out)@ + escape_bytes(msg@),
{
    let mut i: usize = 0;
    while i < msg.len()
        invariant
            i <= msg.len(),
            out@ =~= old(out)@ + escape_bytes(msg@.subrange(0, i as int)),
        decreases msg.len() - i,
    {
        let ghost sofar = out@;
        let b: u8 = msg[i];
        if b == ('"' as u8) {
            out.push(('\\' as u8));
            out.push(('"' as u8));
        } else if b == ('\\' as u8) {
            out.push(('\\' as u8));
            out.push(('\\' as u8));
        } else if b == 0x08 {
            out.push(('\\' as u8));
            out.push(('b' as u8));
        } else if b == 0x09 {
            out.push(('\\' as u8));
            out.push(('t' as u8));
        } else if b == 0x0a {
            out.push(('\\' as u8));
            out.push(('n' as u8));
        } else if b == 0x0c {
            out.push(('\\' as u8));
            out.push(('f' as u8));
        } else if b == 0x0d {
            out.push(('\\' as u8));
            out.push(('r' as u8));
        } else if b < 0x20 {
            out.push(('\\' as u8));
            out.push(('u' as u8));
            out.push(('0' as u8));
            out.push(('0' as u8));
            out.push(48 + b / 16);
            let lo: u8 = b % 16;
            out.push(if lo < 10 { 48 + lo } else { 87 + lo });
        } else {
            out.push(b);
        }
        proof {
            assert(out@ =~= sofar + esc_byte(b));
            lemma_escape_step(msg@, i as int);
            assert(out@ =~= old(out)@ + escape_bytes(msg@.subrange(0, i as int + 1)));
        }
        i = i + 1;
    }
    proof {
        assert(msg@.subrange(0, msg@.len() as int) =~= msg@);
    }
}

/// Escaping one more byte appends that byte's escape.
proof fn lemma_escape_step(s: Seq<u8>, i: int)
    requires
        0 <= i < s.len(),
    ensures
        escape_bytes(s.subrange(0, i + 1)) == escape_bytes(s.subrange(0, i)) + esc_byte(s[i]),
    decreases i,
{
    let a = s.subrange(0, i + 1);
    let b = s.subrange(0, i);
    if i == 0 {
        assert(a.drop_first() =~= Seq::<u8>::empty());
        assert(escape_bytes(a) =~= esc_byte(s[0]) + escape_bytes(a.drop_first()));
        assert(escape_bytes(b) =~= Seq::<u8>::empty());
        assert(escape_bytes(a) =~= escape_bytes(b) + esc_byte(s[i]));
    } else {
        lemma_escape_step(s.drop_first(), i - 1);
        assert(a.drop_first() =~= s.drop_first().subrange(0, i));
        assert(b.drop_first() =~= s.drop_first().subrange(0, i - 1));
        assert(s.drop_first()[i - 1] == s[i]);
        assert(escape_bytes(a) == esc_byte(a[0]) + escape_bytes(a.drop_first()));
        assert(escape_bytes(b) == esc_byte(b[0]) + escape_bytes(b.drop_first()));
        assert(escape_bytes(a) =~= escape_bytes(b) + esc_byte(s[i]));
    }
}

/// Append `{"message":"…","timestamp":…}` for `post` to `out`.
fn push_post_json(out: &mut Vec<u8>, post: &Post)
    ensures
        final(out)@ == old(out)@ + post_json(post@),
{
    out.push(('{' as u8));
    out.push(('"' as u8));
    out.push(('m' as u8));
    out.push(('e' as u8));
    out.push(('s' as u8));
    out.push(('s' as u8));
    out.push(('a' as u8));
    out.push(('g' as u8));
    out.push(('e' as u8));
    out.push(('"' as u8));
    out.push((':' as u8));
    out.push(('"' as u8));
    push_escaped(out, &post.message);
    out.push(('"' as u8));
    out.push((',' as u8));
    out.push(('"' as u8));
    out.push(('t' as u8));
    out.push(('i' as u8));
    out.push(('m' as u8));
    out.push(('e' as u8));
    out.push(('s' as u8));
    out.push(('t' as u8));
    out.push(('a' as u8));
    out.push(('m' as u8));
    out.push(('p' as u8));
    out.push(('"' as u8));
    out.push((':' as u8));
    push_dec_i64(out, post.timestamp);
    out.push(('}' as u8));
    proof {
        assert(out@ =~= old(out)@ + post_json(post@));
    }
}

/// The JSON encoding of one post.
pub fn encode_post(post: &Post) -> (r: Vec<u8>)
    ensures
        r@ == post_json(post@),
{
    let mut out: Vec<u8> = Vec::new();
    push_post_json(&mut out, post);
    proof {
        assert(out@ =~= post_json(post@));
    }
    out
}

/// The JSON encoding of a whole history, oldest first.
pub fn encode_posts(posts: &Vec<Post>) -> (r: Vec<u8>)
    ensures
        r@ == posts_json(posts.deep_view()),
{
    let mut out: Vec<u8> = Vec::new();
    out.push(('[' as u8));
    let mut i: usize = 0;
    while i < posts.len()
        invariant
            i <= posts.len(),
            out@ =~= seq![('[' as u8)] + posts_body(posts.deep_view().subrange(0, i as int)),
        decreases posts.len() - i,
    {
        let ghost sofar = out@;
        if i > 0 {
            out.push((',' as u8));
        }
        push_post_json(&mut out, &posts[i]);
        proof {
            let s = posts.deep_view();
            assert(s.subrange(0, i as int + 1).drop_last() =~= s.subrange(0, i as int));
            assert(s.subrange(0, i as int + 1).last() == posts[i as int]@);
            if i == 0 {
                assert(posts_body(s.subrange(0, 1)) == post_json(s.subrange(0, 1)[0]));
                assert(out@ =~= seq![('[' as u8)] + posts_body(s.subrange(0, i as int + 1)));
            } else {
                assert(posts_body(s.subrange(0, i as int + 1)) == posts_body(
                    s.subrange(0, i as int),
                ) + seq![(',' as u8)] + post_json(posts[i as int]@));
                assert(out@ =~= seq![('[' as u8)] + posts_body(s.subrange(0, i as int + 1)));
            }
        }
        i = i + 1;
    }
    out.push((']' as u8));
    proof {
        assert(posts.deep_view().subrange(0, posts@.len() as int) =~= posts.deep_view());
        assert(out@ =~= posts_json(posts.deep_view()));
    }
    out
}


// ------------------------------------------------------------------
// Specification: the accepted documents
// ------------------------------------------------------------------
/// JSON whitespace.
pub open spec fn is_ws(b: u8) -> bool {
    b == 0x20 || b == 0x09 || b == 0x0a || b == 0x0d
}

/// An ASCII decimal digit.
pub open spec fn is_digit(b: u8) -> bool {
    48 <= b <= 57
}

/// First position at or after `i` holding no whitespace.
pub open spec fn skip_ws(s: Seq<u8>, i: int) -> int
    decreases s.len() - i,
{
    if 0 <= i < s.len() && is_ws(s[i]) {
        skip_ws(s, i + 1)
    } else {
        i
    }
}

/// First position at or after `i` holding no decimal digit.
pub open spec fn digits_end(s: Seq<u8>, i: int) -> int
    decreases s.len() - i,
{
    if 0 <= i < s.len() && is_digit(s[i]) {
        digits_end(s, i + 1)
    } else {
        i
    }
}

/// What a single-letter escape stands for; `None` for an unknown escape.
pub open spec fn unescape_simple(e: u8) -> Option<u8> {
    if e == ('"' as u8) {
        Some(('"' as u8))
    } else if e == ('\\' as u8) {
        Some(('\\' as u8))
    } else if e == ('/' as u8) {
        Some(('/' as u8))
    } else if e == ('b' as u8) {
        Some(0x08u8)
    } else if e == ('f' as u8) {
        Some(0x0cu8)
    } else if e == ('n' as u8) {
        Some(0x0au8)
    } else if e == ('r' as u8) {
        Some(0x0du8)
    } else if e == ('t' as u8) {
        Some(0x09u8)
    } else {
        None
    }
}

/// Value of an ASCII hex digit.
pub open spec fn hex_val(b: u8) -> Option<nat> {
    if 48 <= b <= 57 {
        Some((b - 48) as nat)
    } else if 97 <= b <= 102 {
        Some((b - 87) as nat)
    } else if 65 <= b <= 70 {
        Some((b - 55) as nat)
    } else {
        None
    }
}

/// Value of the four hex digits at `i`.
pub open spec fn hex4(s: Seq<u8>, i: int) -> Option<u32> {
    if 0 <= i && i + 4 <= s.len() {
        match (hex_val(s[i]), hex_val(s[i + 1]), hex_val(s[i + 2]), hex_val(s[i + 3])) {
            (Some(h3), Some(h2), Some(h1), Some(h0)) => Some(
                (h3 * 4096 + h2 * 256 + h1 * 16 + h0) as u32,
            ),
            _ => None,
        }
    } else {
        None
    }
}

/// The scalar denoted by the `\uXXXX` escape whose backslash sits at `i`,
/// and the position after it. A high surrogate must be followed by a low
/// surrogate escape and the pair combines; a lone surrogate is malformed.
pub open spec fn parse_u_escape(s: Seq<u8>, i: int) -> Option<(u32, int)> {
    match hex4(s, i + 2) {
        Some(v) => {
            if 0xD800 <= v <= 0xDBFF {
                if i + 8 <= s.len() && s[i + 6] == ('\\' as u8) && s[i + 7] == ('u' as u8) {
                    match hex4(s, i + 8) {
                        Some(lo) => if 0xDC00 <= lo <= 0xDFFF {
                            Some(
                                (
                                    (0x10000 + (v - 0xD800) * 0x400 + (lo - 0xDC00)) as u32,
                                    i + 12,
                                ),
                            )
                        } else {
                            None
                        },
                        None => None,
                    }
                } else {
                    None
                }
            } else if 0xDC00 <= v <= 0xDFFF {
                None
            } else {
                Some((v, i + 6))
            }
        },
        None => None,
    }
}

/// How many bytes the UTF-8 scalar led by `b` occupies; 0 when `b` can lead
/// no scalar.
pub open spec fn lead_width(b: u8) -> int {
    if vstd::utf8::is_leading_byte_width_2(b) {
        2
    } else if vstd::utf8::is_leading_byte_width_3(b) {
        3
    } else if vstd::utf8::is_leading_byte_width_4(b) {
        4
    } else {
        0
    }
}

/// The body of a JSON string starting right after its opening quote: the
/// UTF-8 bytes it denotes and the position after the closing quote. Plain
/// ASCII stands for itself; a byte above 0x7f must begin a well-formed UTF-8
/// scalar, which is taken whole; the single-letter escapes and `\uXXXX`
/// (surrogate pairs included) decode to the scalar's UTF-8 bytes. Unescaped
/// control bytes, ill-formed UTF-8, unknown escapes, lone surrogates and an
/// unterminated string are malformed. Everything the parser accepts is
/// therefore valid UTF-8 (`lemma_parsed_string_utf8` proves it).
pub open spec fn parse_str_body(s: Seq<u8>, i: int) -> Option<(Seq<u8>, int)>
    decreases s.len() - i,
{
    if i < 0 || i >= s.len() {
        None
    } else if s[i] == ('"' as u8) {
        Some((Seq::<u8>::empty(), i + 1))
    } else if s[i] == ('\\' as u8) {
        if i + 2 <= s.len() {
            if s[i + 1] == ('u' as u8) {
                match parse_u_escape(s, i) {
                    Some(esc) => if esc.1 > i {
                        match parse_str_body(s, esc.1) {
                            Some(rest) => Some(
                                (vstd::utf8::encode_scalar(esc.0) + rest.0, rest.1),
                            ),
                            None => None,
                        }
                    } else {
                        None
                    },
                    None => None,
                }
            } else {
                match unescape_simple(s[i + 1]) {
                    Some(b) => match parse_str_body(s, i + 2) {
                        Some(rest) => Some((seq![b] + rest.0, rest.1)),
                        None => None,
                    },
                    None => None,
                }
            }
        } else {
            None
        }
    } else if s[i] < 0x20 {
        None
    } else if s[i] < 0x80 {
        match parse_str_body(s, i + 1) {
            Some(rest) => Some((seq![s[i]] + rest.0, rest.1)),
            None => None,
        }
    } else {
        let w = lead_width(s[i]);
        if w == 0 || i + w > s.len() {
            None
        } else {
            let chunk = s.subrange(i, i + w);
            if vstd::utf8::valid_first_scalar(chunk) {
                match parse_str_body(s, i + w) {
                    Some(rest) => Some((chunk + rest.0, rest.1)),
                    None => None,
                }
            } else {
                None
            }
        }
    }
}

/// Greedy run of digits starting at `i`, folded onto `acc`.
pub open spec fn parse_num_body(s: Seq<u8>, i: int, acc: int) -> (int, int)
    decreases s.len() - i,
{
    if 0 <= i < s.len() && is_digit(s[i]) {
        parse_num_body(s, i + 1, acc * 10 + (s[i] - 48))
    } else {
        (acc, i)
    }
}

/// A JSON integer at `i`: an optional sign, then digits with no redundant
/// leading zero; malformed or out of the timestamp's range means `None`.
pub open spec fn parse_int(s: Seq<u8>, i: int) -> Option<(int, int)> {
    let neg = 0 <= i < s.len() && s[i] == ('-' as u8);
    let j = if neg {
        i + 1
    } else {
        i
    };
    if 0 <= j < s.len() && is_digit(s[j]) {
        if s[j] == ('0' as u8) && j + 1 < s.len() && is_digit(s[j + 1]) {
            None
        } else {
            let vk = parse_num_body(s, j, 0);
            let t = if neg {
                -vk.0
            } else {
                vk.0
            };
            if i64::MIN as int <= t && t <= i64::MAX as int {
                Some((t, vk.1))
            } else {
                None
            }
        }
    } else {
        None
    }
}

/// A JSON number at `i` (integer part, optional fraction and exponent), used
/// only to step over the value of an unknown member; returns the position
/// after it.
pub open spec fn skip_number(s: Seq<u8>, i: int) -> Option<int> {
    let j = if 0 <= i < s.len() && s[i] == ('-' as u8) {
        i + 1
    } else {
        i
    };
    if 0 <= j < s.len() && is_digit(s[j]) {
        let k = if s[j] == ('0' as u8) {
            j + 1
        } else {
            digits_end(s, j)
        };
        let f = if 0 <= k < s.len() && s[k] == ('.' as u8) {
            if k + 1 < s.len() && is_digit(s[k + 1]) {
                digits_end(s, k + 1)
            } else {
                -1
            }
        } else {
            k
        };
        if f < 0 {
            None
        } else {
            let g = if 0 <= f < s.len() && (s[f] == ('e' as u8) || s[f] == ('E' as u8)) {
                let h = if f + 1 < s.len() && (s[f + 1] == ('+' as u8) || s[f + 1] == (
                    '-' as u8
                )) {
                    f + 2
                } else {
                    f + 1
                };
                if 0 <= h < s.len() && is_digit(s[h]) {
                    digits_end(s, h)
                } else {
                    -1
                }
            } else {
                f
            };
            if g < 0 {
                None
            } else {
                Some(g)
            }
        }
    } else {
        None
    }
}

/// Step over one well-formed JSON value of any kind, returning the position
/// after it. This is how the value of an unknown member is checked and
/// ignored. The `> i` guards restate that every piece moves forward, which
/// gives the recursion its measure.
pub open spec fn skip_value(s: Seq<u8>, i: int) -> Option<int>
    decreases s.len() - i, 0int,
{
    if i < 0 || i >= s.len() {
        None
    } else if s[i] == ('"' as u8) {
        match parse_str_body(s, i + 1) {
            Some(r) => Some(r.1),
            None => None,
        }
    } else if s[i] == ('{' as u8) {
        let j = skip_ws(s, i + 1);
        if i < j <= s.len() {
            skip_members(s, j, true)
        } else {
            None
        }
    } else if s[i] == ('[' as u8) {
        let j = skip_ws(s, i + 1);
        if i < j <= s.len() {
            skip_elements(s, j, true)
        } else {
            None
        }
    } else if s[i] == ('t' as u8) {
        if i + 4 <= s.len() && s[i + 1] == ('r' as u8) && s[i + 2] == ('u' as u8) && s[i + 3]
            == ('e' as u8) {
            Some(i + 4)
        } else {
            None
        }
    } else if s[i] == ('f' as u8) {
        if i + 5 <= s.len() && s[i + 1] == ('a' as u8) && s[i + 2] == ('l' as u8) && s[i + 3]
            == ('s' as u8) && s[i + 4] == ('e' as u8) {
            Some(i + 5)
        } else {
            None
        }
    } else if s[i] == ('n' as u8) {
        if i + 4 <= s.len() && s[i + 1] == ('u' as u8) && s[i + 2] == ('l' as u8) && s[i + 3]
            == ('l' as u8) {
            Some(i + 4)
        } else {
            None
        }
    } else {
        skip_number(s, i)
    }
}

/// Step over the members of an object being ignored, from the first key (or
/// the closing brace, when `first` and the object is empty) to the position
/// after the closing brace.
pub open spec fn skip_members(s: Seq<u8>, i: int, first: bool) -> Option<int>
    decreases s.len() - i, 1int,
{
    if i < 0 || i >= s.len() {
        None
    } else if first && s[i] == ('}' as u8) {
        Some(i + 1)
    } else if s[i] == ('"' as u8) {
        match parse_str_body(s, i + 1) {
            Some(key) => {
                let k = skip_ws(s, key.1);
                if 0 <= k < s.len() && s[k] == (':' as u8) {
                    let v = skip_ws(s, k + 1);
                    if !(i < v <= s.len()) {
                        None
                    } else {
                        match skip_value(s, v) {
                            Some(j) => {
                                let c = skip_ws(s, j);
                                if 0 <= c < s.len() && s[c] == (',' as u8) {
                                    let n = skip_ws(s, c + 1);
                                    if i < n <= s.len() {
                                        skip_members(s, n, false)
                                    } else {
                                        None
                                    }
                                } else if 0 <= c < s.len() && s[c] == ('}' as u8) {
                                    Some(c + 1)
                                } else {
                                    None
                                }
                            },
                            None => None,
                        }
                    }
                } else {
                    None
                }
            },
            None => None,
        }
    } else {
        None
    }
}

/// Step over the elements of an array being ignored, from the first value
/// (or the closing bracket, when `first` and the array is empty) to the
/// position after the closing bracket.
pub open spec fn skip_elements(s: Seq<u8>, i: int, first: bool) -> Option<int>
    decreases s.len() - i, 1int,
{
    if i < 0 || i >= s.len() {
        None
    } else if first && s[i] == (']' as u8) {
        Some(i + 1)
    } else {
        match skip_value(s, i) {
            Some(j) => {
                let c = skip_ws(s, j);
                if 0 <= c < s.len() && s[c] == (',' as u8) {
                    let n = skip_ws(s, c + 1);
                    if i < n <= s.len() {
                        skip_elements(s, n, false)
                    } else {
                        None
                    }
                } else if 0 <= c < s.len() && s[c] == (']' as u8) {
                    Some(c + 1)
                } else {
                    None
                }
            },
            None => None,
        }
    }
}

/// One member of the post object: the message, the timestamp, or an unknown
/// member that was checked and ignored.
pub enum MemberVal {
    MsgVal(Seq<u8>),
    TsVal(int),
    Skipped,
}

/// A `"key": value` member at `i`. The `message` value must be a string and
/// the `timestamp` value an integer, each at most once; any other member is
/// stepped over, whatever well-formed value it holds.
pub open spec fn parse_member(s: Seq<u8>, i: int, have_m: bool, have_t: bool) -> Option<
    (MemberVal, int),
> {
    if 0 <= i < s.len() && s[i] == ('"' as u8) {
        match parse_str_body(s, i + 1) {
            Some(key) => {
                let k = skip_ws(s, key.1);
                if 0 <= k < s.len() && s[k] == (':' as u8) {
                    let v = skip_ws(s, k + 1);
                    if key.0 == msg_key() {
                        if have_m {
                            None
                        } else if 0 <= v < s.len() && s[v] == ('"' as u8) {
                            match parse_str_body(s, v + 1) {
                                Some(m) => Some((MemberVal::MsgVal(m.0), m.1)),
                                None => None,
                            }
                        } else {
                            None
                        }
                    } else if key.0 == ts_key() {
                        if have_t {
                            None
                        } else {
                            match parse_int(s, v) {
                                Some(t) => Some((MemberVal::TsVal(t.0), t.1)),
                                None => None,
                            }
                        }
                    } else {
                        match skip_value(s, v) {
                            Some(j) => Some((MemberVal::Skipped, j)),
                            None => None,
                        }
                    }
                } else {
                    None
                }
            },
            None => None,
        }
    } else {
        None
    }
}

/// The member list of the post object from position `i` to the closing
/// brace: both `message` and `timestamp` must appear exactly once, in any
/// order and among any number of ignored members.
pub open spec fn parse_members(s: Seq<u8>, i: int, m: Option<Seq<u8>>, t: Option<int>) -> Option<
    (Seq<u8>, int, int),
>
    decreases s.len() - i,
{
    match parse_member(s, i, m is Some, t is Some) {
        Some(oj) => {
            let m2 = if oj.0 is MsgVal {
                Some(oj.0->MsgVal_0)
            } else {
                m
            };
            let t2 = if oj.0 is TsVal {
                Some(oj.0->TsVal_0)
            } else {
                t
            };
            let c = skip_ws(s, oj.1);
            if 0 <= c < s.len() && s[c] == (',' as u8) {
                let n = skip_ws(s, c + 1);
                if i < n <= s.len() {
                    parse_members(s, n, m2, t2)
                } else {
                    None
                }
            } else if 0 <= c < s.len() && s[c] == ('}' as u8) {
                if m2 is Some && t2 is Some {
                    Some((m2.unwrap(), t2.unwrap(), c + 1))
                } else {
                    None
                }
            } else {
                None
            }
        },
        None => None,
    }
}

/// The documents accepted by `POST /posts`: one JSON object holding a
/// `message` string and a `timestamp` integer, each exactly once, in either
/// order, with optional whitespace, any number of well-formed unknown
/// members, and nothing after the object.
pub open spec fn parse_post_doc(s: Seq<u8>) -> Option<PostView> {
    let i0 = skip_ws(s, 0);
    if 0 <= i0 < s.len() && s[i0] == ('{' as u8) {
        match parse_members(s, skip_ws(s, i0 + 1), None, None) {
            Some(r) => if skip_ws(s, r.2) == s.len() {
                Some(PostView { message: r.0, timestamp: r.1 })
            } else {
                None
            },
            None => None,
        }
    } else {
        None
    }
}

// ------------------------------------------------------------------
// Parser
// ------------------------------------------------------------------
/// Exec mirror of `is_ws`.
fn is_ws_byte(b: u8) -> (r: bool)
    ensures
        r == is_ws(b),
{
    b == 0x20 || b == 0x09 || b == 0x0a || b == 0x0d
}

/// First position at or after `i` holding no whitespace.
fn ws_end(s: &Vec<u8>, i: usize) -> (r: usize)
    requires
        i <= s@.len(),
    ensures
        r as int == skip_ws(s@, i as int),
        i <= r <= s@.len(),
{
    let mut j: usize = i;
    while j < s.len() && is_ws_byte(s[j])
        invariant
            i <= j <= s@.len(),
            skip_ws(s@, i as int) == skip_ws(s@, j as int),
        decreases s@.len() - j,
    {
        j = j + 1;
    }
    j
}

/// First position at or after `i` holding no decimal digit.
fn digits_end_at(s: &Vec<u8>, i: usize) -> (r: usize)
    requires
        i <= s@.len(),
    ensures
        r as int == digits_end(s@, i as int),
        i <= r <= s@.len(),
{
    let mut j: usize = i;
    while j < s.len() && 48 <= s[j] && s[j] <= 57
        invariant
            i <= j <= s@.len(),
            digits_end(s@, i as int) == digits_end(s@, j as int),
        decreases s@.len() - j,
    {
        j = j + 1;
    }
    j
}

/// Exec mirror of `hex_val`.
fn hex_val_byte(b: u8) -> (r: Option<u8>)
    ensures
        (r matches Some(v) ==> hex_val(b) == Some(v as nat) && v < 16),
        (r is None ==> hex_val(b) is None),
{
    if 48 <= b && b <= 57 {
        Some(b - 48)
    } else if 97 <= b && b <= 102 {
        Some(b - 87)
    } else if 65 <= b && b <= 70 {
        Some(b - 55)
    } else {
        None
    }
}

/// Value of the four hex digits at `i`.
fn hex4_at(s: &Vec<u8>, i: usize) -> (r: Option<u32>)
    requires
        i <= s@.len(),
    ensures
        r == hex4(s@, i as int),
{
    if s.len() < 4 || i > s.len() - 4 {
        return None;
    }
    let h3 = hex_val_byte(s[i]);
    let h2 = hex_val_byte(s[i + 1]);
    let h1 = hex_val_byte(s[i + 2]);
    let h0 = hex_val_byte(s[i + 3]);
    match (h3, h2, h1, h0) {
        (Some(a3), Some(a2), Some(a1), Some(a0)) => Some(
            a3 as u32 * 4096 + a2 as u32 * 256 + a1 as u32 * 16 + a0 as u32,
        ),
        _ => None,
    }
}

/// Exec mirror of `unescape_simple`.
fn unescape_simple_byte(e: u8) -> (r: Option<u8>)
    ensures
        r == unescape_simple(e),
{
    if e == ('"' as u8) {
        Some(('"' as u8))
    } else if e == ('\\' as u8) {
        Some(('\\' as u8))
    } else if e == ('/' as u8) {
        Some(('/' as u8))
    } else if e == ('b' as u8) {
        Some(0x08u8)
    } else if e == ('f' as u8) {
        Some(0x0cu8)
    } else if e == ('n' as u8) {
        Some(0x0au8)
    } else if e == ('r' as u8) {
        Some(0x0du8)
    } else if e == ('t' as u8) {
        Some(0x09u8)
    } else {
        None
    }
}

/// The `\uXXXX` escape whose backslash sits at `start`.
fn parse_u_escape_at(s: &Vec<u8>, start: usize) -> (r: Option<(u32, usize)>)
    requires
        start + 2 <= s@.len(),
    ensures
        (r matches Some(ok) ==> parse_u_escape(s@, start as int) == Some((ok.0, ok.1 as int))
            && start < ok.1 <= s@.len() && vstd::utf8::is_scalar(ok.0)),
        (r is None ==> parse_u_escape(s@, start as int) is None),
{
    let n: usize = s.len();
    let v = match hex4_at(s, start + 2) {
        Some(v) => v,
        None => {
            return None;
        },
    };
    if 0xD800 <= v && v <= 0xDBFF {
        if n - start >= 8 && s[start + 6] == ('\\' as u8) && s[start + 7] == ('u' as u8) {
            match hex4_at(s, start + 8) {
                Some(lo) => {
                    if 0xDC00 <= lo && lo <= 0xDFFF {
                        Some((0x10000 + (v - 0xD800) * 0x400 + (lo - 0xDC00), start + 12))
                    } else {
                        None
                    }
                },
                None => None,
            }
        } else {
            None
        }
    } else if 0xDC00 <= v && v <= 0xDFFF {
        None
    } else {
        Some((v, start + 6))
    }
}

/// Append the UTF-8 encoding of the scalar `v` to `out`.
fn push_scalar_utf8(out: &mut Vec<u8>, v: u32)
    requires
        vstd::utf8::is_scalar(v),
    ensures
        final(out)@ == old(out)@ + vstd::utf8::encode_scalar(v),
{
    if v < 0x80 {
        out.push((v & 0x7F) as u8);
    } else if v < 0x800 {
        out.push(0xC0 | ((v >> 6) & 0x1F) as u8);
        out.push(0x80 | (v & 0x3F) as u8);
    } else if v < 0x10000 {
        out.push(0xE0 | ((v >> 12) & 0x0F) as u8);
        out.push(0x80 | ((v >> 6) & 0x3F) as u8);
        out.push(0x80 | (v & 0x3F) as u8);
    } else {
        out.push(0xF0 | ((v >> 18) & 0x7) as u8);
        out.push(0x80 | ((v >> 12) & 0x3F) as u8);
        out.push(0x80 | ((v >> 6) & 0x3F) as u8);
        out.push(0x80 | (v & 0x3F) as u8);
    }
    proof {
        assert(out@ =~= old(out)@ + vstd::utf8::encode_scalar(v));
    }
}

/// Whether the `w` bytes at `i` are one well-formed UTF-8 scalar, for a
/// leading byte of width `w`.
fn check_first_scalar(s: &Vec<u8>, i: usize, w: usize) -> (r: bool)
    requires
        2 <= w <= 4,
        i + w <= s@.len(),
        w == 2 ==> vstd::utf8::is_leading_byte_width_2(s@[i as int]),
        w == 3 ==> vstd::utf8::is_leading_byte_width_3(s@[i as int]),
        w == 4 ==> vstd::utf8::is_leading_byte_width_4(s@[i as int]),
    ensures
        r == vstd::utf8::valid_first_scalar(s@.subrange(i as int, i as int + w as int)),
{
    let ghost chunk = s@.subrange(i as int, i as int + w as int);
    let n: usize = s.len();
    let b1 = s[i];
    let b2 = s[i + 1];
    if !(0x80 <= b2 && b2 <= 0xBF) {
        proof {
            assert(chunk[1] == b2);
            assert(!vstd::utf8::valid_first_scalar(chunk));
        }
        return false;
    }
    if w == 2 {
        let cp: u32 = (((b1 & 0x1F) as u32) << 6) | ((b2 & 0x3F) as u32);
        let r = cp >= 0x80;
        proof {
            assert(chunk[0] == b1 && chunk[1] == b2);
            assert(cp == vstd::utf8::codepoint_width_2(b1, b2));
            assert((((b1 & 0x1F) as u32) << 6) | ((b2 & 0x3F) as u32) < 0x800) by (bit_vector);
            assert(vstd::utf8::valid_first_scalar(chunk) == r);
        }
        r
    } else if w == 3 {
        let b3 = s[i + 2];
        if !(0x80 <= b3 && b3 <= 0xBF) {
            proof {
                assert(chunk[2] == b3);
                assert(!vstd::utf8::valid_first_scalar(chunk));
            }
            return false;
        }
        let cp: u32 = (((b1 & 0x0F) as u32) << 12) | (((b2 & 0x3F) as u32) << 6) | ((b3
            & 0x3F) as u32);
        let r = cp >= 0x800 && !(0xD800 <= cp && cp <= 0xDFFF);
        proof {
            assert(chunk[0] == b1 && chunk[1] == b2 && chunk[2] == b3);
            assert(cp == vstd::utf8::codepoint_width_3(b1, b2, b3));
            assert(vstd::utf8::valid_first_scalar(chunk) == r);
        }
        r
    } else {
        let b3 = s[i + 2];
        let b4 = s[i + 3];
        if !(0x80 <= b3 && b3 <= 0xBF) || !(0x80 <= b4 && b4 <= 0xBF) {
            proof {
                assert(chunk[2] == b3 && chunk[3] == b4);
                assert(!vstd::utf8::valid_first_scalar(chunk));
            }
            return false;
        }
        let cp: u32 = (((b1 & 0x07) as u32) << 18) | (((b2 & 0x3F) as u32) << 12) | (((b3
            & 0x3F) as u32) << 6) | ((b4 & 0x3F) as u32);
        let r = 0x10000 <= cp && cp <= 0x10FFFF;
        proof {
            assert(chunk[0] == b1 && chunk[1] == b2 && chunk[2] == b3 && chunk[3] == b4);
            assert(cp == vstd::utf8::codepoint_width_4(b1, b2, b3, b4));
            assert(vstd::utf8::valid_first_scalar(chunk) == r);
        }
        r
    }
}

/// The body of a JSON string starting right after its opening quote.
fn parse_string_body(s: &Vec<u8>, start: usize) -> (r: Option<(Vec<u8>, usize)>)
    requires
        start <= s@.len(),
    ensures
        (r matches Some(ok) ==> parse_str_body(s@, start as int) == Some((ok.0@, ok.1 as int))
            && start < ok.1 <= s@.len()),
        (r is None ==> parse_str_body(s@, start as int) is None),
{
    let mut acc: Vec<u8> = Vec::new();
    let mut i: usize = start;
    loop
        invariant
            start <= i <= s@.len(),
            ({
                let whole = parse_str_body(s@, start as int);
                let rest = parse_str_body(s@, i as int);
                match rest {
                    Some(re) => whole == Some((acc@ + re.0, re.1)),
                    None => whole is None,
                }
            }),
        decreases s@.len() - i,
    {
        if i >= s.len() {
            return None;
        }
        let ghost prev: int = i as int;
        let ghost acc_prev = acc@;
        let b: u8 = s[i];
        if b == ('"' as u8) {
            proof {
                assert(acc@ + Seq::<u8>::empty() =~= acc@);
            }
            return Some((acc, i + 1));
        }
        if b == ('\\' as u8) {
            if i + 1 >= s.len() {
                return None;
            }
            let e: u8 = s[i + 1];
            if e == ('u' as u8) {
                match parse_u_escape_at(s, i) {
                    Some((v, next)) => {
                        push_scalar_utf8(&mut acc, v);
                        i = next;
                    },
                    None => {
                        return None;
                    },
                }
            } else {
                match unescape_simple_byte(e) {
                    Some(x) => {
                        acc.push(x);
                        i = i + 2;
                    },
                    None => {
                        return None;
                    },
                }
            }
        } else if b < 0x20 {
            return None;
        } else if b < 0x80 {
            acc.push(b);
            i = i + 1;
        } else {
            let w: usize = if 0xC0 <= b && b <= 0xDF {
                2
            } else if 0xE0 <= b && b <= 0xEF {
                3
            } else if 0xF0 <= b && b <= 0xF7 {
                4
            } else {
                0
            };
            if w == 0 || s.len() - i < w {
                return None;
            }
            if !check_first_scalar(s, i, w) {
                return None;
            }
            let mut k: usize = 0;
            while k < w
                invariant
                    k <= w,
                    i + w <= s@.len(),
                    s@.len() <= usize::MAX,
                    acc@ =~= acc_prev + s@.subrange(prev, prev + k as int),
                    i as int == prev,
                decreases w - k,
            {
                acc.push(s[i + k]);
                proof {
                    assert(acc@ =~= acc_prev + s@.subrange(prev, prev + k as int + 1));
                }
                k = k + 1;
            }
            i = i + w;
        }
        proof {
            let whole = parse_str_body(s@, start as int);
            let stepped = parse_str_body(s@, prev);
            let rest = parse_str_body(s@, i as int);
            match rest {
                Some(re) => {
                    assert(stepped matches Some(st) && st.0 == acc@.subrange(
                        acc_prev.len() as int,
                        acc@.len() as int,
                    ) + re.0 && st.1 == re.1);
                    assert(acc_prev + (acc@.subrange(acc_prev.len() as int, acc@.len() as int)
                        + re.0) =~= acc@ + re.0);
                },
                None => {
                    assert(stepped is None);
                },
            }
        }
    }
}

/// The folded value of a digit run never shrinks below its accumulator.
proof fn lemma_num_body_bounds(s: Seq<u8>, i: int, acc: int)
    requires
        0 <= i <= s.len(),
        acc >= 0,
    ensures
        parse_num_body(s, i, acc).0 >= acc,
        i <= parse_num_body(s, i, acc).1 <= s.len(),
    decreases s.len() - i,
{
    if 0 <= i < s.len() && is_digit(s[i]) {
        lemma_num_body_bounds(s, i + 1, acc * 10 + (s[i] - 48));
    }
}

/// A JSON integer in the timestamp's range, starting at `start`.
fn parse_int_at(s: &Vec<u8>, start: usize) -> (r: Option<(i64, usize)>)
    requires
        start <= s@.len(),
    ensures
        (r matches Some(ok) ==> parse_int(s@, start as int) == Some((ok.0 as int, ok.1 as int))
            && start < ok.1 <= s@.len()),
        (r is None ==> parse_int(s@, start as int) is None),
{
    let mut i: usize = start;
    let mut neg: bool = false;
    if i < s.len() && s[i] == ('-' as u8) {
        neg = true;
        i = i + 1;
    }
    if i >= s.len() || !(48 <= s[i] && s[i] <= 57) {
        return None;
    }
    if s[i] == ('0' as u8) && i + 1 < s.len() && 48 <= s[i + 1] && s[i + 1] <= 57 {
        return None;
    }
    let limit: u64 = if neg {
        9223372036854775808u64
    } else {
        9223372036854775807u64
    };
    let ghost first: int = i as int;
    let mut acc: u64 = 0;
    while i < s.len() && 48 <= s[i] && s[i] <= 57
        invariant
            start <= first <= i as int <= s@.len(),
            acc <= limit,
            neg == (0 <= start < s@.len() && s@[start as int] == ('-' as u8)),
            first == if neg { start + 1 } else { start as int },
            0 <= first < s@.len() && is_digit(s@[first]),
            !(s@[first] == ('0' as u8) && first + 1 < s@.len() && is_digit(s@[first + 1])),
            limit == if neg { 9223372036854775808u64 } else { 9223372036854775807u64 },
            parse_num_body(s@, first, 0) == parse_num_body(s@, i as int, acc as int),
        decreases s@.len() - i,
    {
        let d: u8 = s[i] - 48;
        if acc > (limit - d as u64) / 10 {
            proof {
                lemma_num_body_bounds(s@, i as int + 1, acc as int * 10 + d as int);
                assert(acc as int * 10 + d as int > limit);
                assert(parse_num_body(s@, first, 0).0 > limit);
            }
            return None;
        }
        acc = acc * 10 + d as u64;
        i = i + 1;
    }
    proof {
        assert(parse_num_body(s@, i as int, acc as int) == (acc as int, i as int));
    }
    let t: i64 = if neg {
        if acc == 9223372036854775808u64 {
            i64::MIN
        } else {
            -(acc as i64)
        }
    } else {
        acc as i64
    };
    Some((t, i))
}

/// Step over a JSON number, as `skip_number` reads it.
fn skip_number_at(s: &Vec<u8>, start: usize) -> (r: Option<usize>)
    requires
        start <= s@.len(),
    ensures
        (r matches Some(j) ==> skip_number(s@, start as int) == Some(j as int) && j <= s@.len()),
        (r is None ==> skip_number(s@, start as int) is None),
{
    let mut j: usize = start;
    if j < s.len() && s[j] == ('-' as u8) {
        j = j + 1;
    }
    if j >= s.len() || !(48 <= s[j] && s[j] <= 57) {
        return None;
    }
    let k: usize = if s[j] == ('0' as u8) {
        j + 1
    } else {
        digits_end_at(s, j)
    };
    let f: usize = if k < s.len() && s[k] == ('.' as u8) {
        if k + 1 < s.len() && 48 <= s[k + 1] && s[k + 1] <= 57 {
            digits_end_at(s, k + 1)
        } else {
            return None;
        }
    } else {
        k
    };
    let g: usize = if f < s.len() && (s[f] == ('e' as u8) || s[f] == ('E' as u8)) {
        let h: usize = if f + 1 < s.len() && (s[f + 1] == ('+' as u8) || s[f + 1] == (
        '-' as u8)) {
            f + 2
        } else {
            f + 1
        };
        if h < s.len() && 48 <= s[h] && s[h] <= 57 {
            digits_end_at(s, h)
        } else {
            return None;
        }
    } else {
        f
    };
    Some(g)
}

/// Step over one well-formed JSON value, as `skip_value` reads it.
fn skip_value_at(s: &Vec<u8>, start: usize) -> (r: Option<usize>)
    requires
        start <= s@.len(),
    ensures
        (r matches Some(j) ==> skip_value(s@, start as int) == Some(j as int) && j <= s@.len()),
        (r is None ==> skip_value(s@, start as int) is None),
    decreases s@.len() - start, 0int,
{
    if start >= s.len() {
        return None;
    }
    let b: u8 = s[start];
    if b == ('"' as u8) {
        match parse_string_body(s, start + 1) {
            Some(m) => Some(m.1),
            None => None,
        }
    } else if b == ('{' as u8) {
        let j = ws_end(s, start + 1);
        if j <= start || j > s.len() {
            return None;
        }
        skip_members_at(s, j, true)
    } else if b == ('[' as u8) {
        let j = ws_end(s, start + 1);
        if j <= start || j > s.len() {
            return None;
        }
        skip_elements_at(s, j, true)
    } else if b == ('t' as u8) {
        if s.len() - start >= 4 && s[start + 1] == ('r' as u8) && s[start + 2] == ('u' as u8)
            && s[start + 3] == ('e' as u8) {
            Some(start + 4)
        } else {
            None
        }
    } else if b == ('f' as u8) {
        if s.len() - start >= 5 && s[start + 1] == ('a' as u8) && s[start + 2] == ('l' as u8)
            && s[start + 3] == ('s' as u8) && s[start + 4] == ('e' as u8) {
            Some(start + 5)
        } else {
            None
        }
    } else if b == ('n' as u8) {
        if s.len() - start >= 4 && s[start + 1] == ('u' as u8) && s[start + 2] == ('l' as u8)
            && s[start + 3] == ('l' as u8) {
            Some(start + 4)
        } else {
            None
        }
    } else {
        skip_number_at(s, start)
    }
}

/// Step over the members of an ignored object, as `skip_members` reads them.
fn skip_members_at(s: &Vec<u8>, start: usize, first: bool) -> (r: Option<usize>)
    requires
        start <= s@.len(),
    ensures
        (r matches Some(j) ==> skip_members(s@, start as int, first) == Some(j as int) && j
            <= s@.len()),
        (r is None ==> skip_members(s@, start as int, first) is None),
    decreases s@.len() - start, 1int,
{
    if start >= s.len() {
        return None;
    }
    if first && s[start] == ('}' as u8) {
        return Some(start + 1);
    }
    if s[start] != ('"' as u8) {
        return None;
    }
    let key = match parse_string_body(s, start + 1) {
        Some(k) => k,
        None => {
            return None;
        },
    };
    let k: usize = ws_end(s, key.1);
    if k >= s.len() || s[k] != (':' as u8) {
        return None;
    }
    let v: usize = ws_end(s, k + 1);
    if v <= start || v > s.len() {
        return None;
    }
    let j = match skip_value_at(s, v) {
        Some(j) => j,
        None => {
            return None;
        },
    };
    let c: usize = ws_end(s, j);
    if c < s.len() && s[c] == (',' as u8) {
        let n: usize = ws_end(s, c + 1);
        if n <= start || n > s.len() {
            return None;
        }
        skip_members_at(s, n, false)
    } else if c < s.len() && s[c] == ('}' as u8) {
        Some(c + 1)
    } else {
        None
    }
}

/// Step over the elements of an ignored array, as `skip_elements` reads them.
fn skip_elements_at(s: &Vec<u8>, start: usize, first: bool) -> (r: Option<usize>)
    requires
        start <= s@.len(),
    ensures
        (r matches Some(j) ==> skip_elements(s@, start as int, first) == Some(j as int) && j
            <= s@.len()),
        (r is None ==> skip_elements(s@, start as int, first) is None),
    decreases s@.len() - start, 1int,
{
    if start >= s.len() {
        return None;
    }
    if first && s[start] == (']' as u8) {
        return Some(start + 1);
    }
    let j = match skip_value_at(s, start) {
        Some(j) => j,
        None => {
            return None;
        },
    };
    let c: usize = ws_end(s, j);
    if c < s.len() && s[c] == (',' as u8) {
        let n: usize = ws_end(s, c + 1);
        if n <= start || n > s.len() {
            return None;
        }
        skip_elements_at(s, n, false)
    } else if c < s.len() && s[c] == (']' as u8) {
        Some(c + 1)
    } else {
        None
    }
}

/// One parsed member of the post object.
enum MemberOut {
    MsgVal(Vec<u8>),
    TsVal(i64),
    Skipped,
}

/// A `"key": value` member starting at `start`, as `parse_member` reads it.
fn parse_member_at(s: &Vec<u8>, start: usize, have_m: bool, have_t: bool) -> (r: Option<
    (MemberOut, usize),
>)
    requires
        start <= s@.len(),
    ensures
        (r matches Some(oj) ==> oj.1 <= s@.len() && (match oj.0 {
            MemberOut::MsgVal(m) => parse_member(s@, start as int, have_m, have_t) == Some(
                (MemberVal::MsgVal(m@), oj.1 as int),
            ),
            MemberOut::TsVal(t) => parse_member(s@, start as int, have_m, have_t) == Some(
                (MemberVal::TsVal(t as int), oj.1 as int),
            ),
            MemberOut::Skipped => parse_member(s@, start as int, have_m, have_t) == Some(
                (MemberVal::Skipped, oj.1 as int),
            ),
        })),
        (r is None ==> parse_member(s@, start as int, have_m, have_t) is None),
{
    if start >= s.len() || s[start] != ('"' as u8) {
        return None;
    }
    let key = match parse_string_body(s, start + 1) {
        Some(k) => k,
        None => {
            return None;
        },
    };
    let k: usize = ws_end(s, key.1);
    if k >= s.len() || s[k] != (':' as u8) {
        return None;
    }
    let v: usize = ws_end(s, k + 1);
    if eq_key(&key.0, true) {
        if have_m {
            return None;
        }
        if v >= s.len() || s[v] != ('"' as u8) {
            return None;
        }
        match parse_string_body(s, v + 1) {
            Some(m) => Some((MemberOut::MsgVal(m.0), m.1)),
            None => None,
        }
    } else if eq_key(&key.0, false) {
        if have_t {
            return None;
        }
        match parse_int_at(s, v) {
            Some(t) => Some((MemberOut::TsVal(t.0), t.1)),
            None => None,
        }
    } else {
        match skip_value_at(s, v) {
            Some(j) => Some((MemberOut::Skipped, j)),
            None => None,
        }
    }
}

/// Whether `k` spells `message` (`msg` true) or `timestamp` (`msg` false).
fn eq_key(k: &Vec<u8>, msg: bool) -> (r: bool)
    ensures
        msg ==> r == (k@ == msg_key()),
        !msg ==> r == (k@ == ts_key()),
{
    if msg {
        if k.len() != 7 {
            proof {
                assert(k@ != msg_key());
            }
            return false;
        }
        let r = k[0] == 109 && k[1] == 101 && k[2] == 115 && k[3] == 115 && k[4] == 97 && k[5]
            == 103 && k[6] == 101;
        proof {
            if r {
                assert(k@ =~= msg_key());
            }
        }
        r
    } else {
        if k.len() != 9 {
            proof {
                assert(k@ != ts_key());
            }
            return false;
        }
        let r = k[0] == 116 && k[1] == 105 && k[2] == 109 && k[3] == 101 && k[4] == 115 && k[5]
            == 116 && k[6] == 97 && k[7] == 109 && k[8] == 112;
        proof {
            if r {
                assert(k@ =~= ts_key());
            }
        }
        r
    }
}

/// View of an optional message buffer.
spec fn msg_view(m: Option<Vec<u8>>) -> Option<Seq<u8>> {
    match m {
        Some(v) => Some(v@),
        None => None,
    }
}

/// View of an optional timestamp.
spec fn ts_view(t: Option<i64>) -> Option<int> {
    match t {
        Some(v) => Some(v as int),
        None => None,
    }
}

/// Parse a `POST /posts` body. The result is exactly what the grammar
/// `parse_post_doc` assigns to the bytes: a malformed document gives `None`.
pub fn parse_post(body: &Vec<u8>) -> (r: Option<Post>)
    ensures
        (r matches Some(p) ==> parse_post_doc(body@) == Some(p@)),
        (r is None ==> parse_post_doc(body@) is None),
{
    let i0: usize = ws_end(body, 0);
    if i0 >= body.len() || body[i0] != ('{' as u8) {
        return None;
    }
    let mut i: usize = ws_end(body, i0 + 1);
    let mut msg: Option<Vec<u8>> = None;
    let mut ts: Option<i64> = None;
    let ghost first_pos: int = i as int;
    loop
        invariant
            i <= body@.len(),
            parse_members(body@, first_pos, None, None) == parse_members(
                body@,
                i as int,
                msg_view(msg),
                ts_view(ts),
            ),
            parse_post_doc(body@) == (match parse_members(body@, first_pos, None, None) {
                Some(r3) => if skip_ws(body@, r3.2) == body@.len() {
                    Some(PostView { message: r3.0, timestamp: r3.1 })
                } else {
                    None::<PostView>
                },
                None => None::<PostView>,
            }),
        decreases body@.len() - i,
    {
        let ghost prev: int = i as int;
        let have_m = match &msg {
            Some(_) => true,
            None => false,
        };
        let have_t = match &ts {
            Some(_) => true,
            None => false,
        };
        let (out, j) = match parse_member_at(body, i, have_m, have_t) {
            Some(oj) => oj,
            None => {
                return None;
            },
        };
        match out {
            MemberOut::MsgVal(m) => {
                msg = Some(m);
            },
            MemberOut::TsVal(t) => {
                ts = Some(t);
            },
            MemberOut::Skipped => {},
        }
        let c: usize = ws_end(body, j);
        if c < body.len() && body[c] == (',' as u8) {
            let n: usize = ws_end(body, c + 1);
            if n <= i || n > body.len() {
                return None;
            }
            i = n;
        } else if c < body.len() && body[c] == ('}' as u8) {
            let ghost mv = msg_view(msg);
            let ghost tv = ts_view(ts);
            let m = match msg {
                Some(m) => m,
                None => {
                    return None;
                },
            };
            let t = match ts {
                Some(t) => t,
                None => {
                    return None;
                },
            };
            proof {
                assert(mv == Some(m@) && tv == Some(t as int));
            }
            if ws_end(body, c + 1) != body.len() {
                return None;
            }
            return Some(Post { message: m, timestamp: t });
        } else {
            return None;
        }
    }
}


/// The encoding of one scalar is valid UTF-8.
proof fn lemma_encode_scalar_valid(v: u32)
    requires
        vstd::utf8::is_scalar(v),
    ensures
        vstd::utf8::valid_utf8(vstd::utf8::encode_scalar(v)),
{
    let c = v as char;
    assert(c as u32 == v);
    assert(vstd::utf8::encode_utf8(seq![c]) =~= vstd::utf8::encode_scalar(v)) by {
        assert(seq![c].len() == 1 && seq![c][0] == c);
        assert(seq![c].drop_first() =~= Seq::<char>::empty());
        assert(vstd::utf8::encode_utf8(Seq::<char>::empty()) =~= Seq::<u8>::empty());
        assert(vstd::utf8::encode_utf8(seq![c]) == vstd::utf8::encode_scalar(c as u32)
            + vstd::utf8::encode_utf8(seq![c].drop_first()));
    }
    vstd::utf8::encode_utf8_valid_utf8(seq![c]);
}

/// Whatever string body the parser accepts is valid UTF-8: it is put
/// together from single-scalar encodings alone.
pub proof fn lemma_parsed_string_utf8(s: Seq<u8>, i: int)
    requires
        0 <= i,
    ensures
        parse_str_body(s, i) matches Some(r) ==> vstd::utf8::valid_utf8(r.0),
    decreases s.len() - i,
{
    if 0 <= i < s.len() {
        let b = s[i];
        if b == ('"' as u8) {
            assert(vstd::utf8::valid_utf8(Seq::<u8>::empty()));
        } else if b == ('\\' as u8) {
            if i + 2 <= s.len() {
                if s[i + 1] == ('u' as u8) {
                    match parse_u_escape(s, i) {
                        Some(esc) => {
                            if esc.1 > i {
                                assert(vstd::utf8::is_scalar(esc.0));
                                lemma_encode_scalar_valid(esc.0);
                                lemma_parsed_message_step(s, i, esc.1, vstd::utf8::encode_scalar(esc.0));
                            }
                        },
                        None => {},
                    }
                } else {
                    match unescape_simple(s[i + 1]) {
                        Some(x) => {
                            assert(x < 0x80);
                            assert(seq![x][0] < 0x80);
                            lemma_ascii_valid_utf8(seq![x]);
                            lemma_parsed_message_step(s, i, i + 2, seq![x]);
                        },
                        None => {},
                    }
                }
            }
        } else if b < 0x20 {
        } else if b < 0x80 {
            assert(seq![b][0] < 0x80);
            lemma_ascii_valid_utf8(seq![b]);
            lemma_parsed_message_step(s, i, i + 1, seq![b]);
        } else {
            let w = lead_width(b);
            if w != 0 && i + w <= s.len() {
                let chunk = s.subrange(i, i + w);
                if vstd::utf8::valid_first_scalar(chunk) {
                    assert(vstd::utf8::length_of_first_scalar(chunk) == w);
                    assert(vstd::utf8::pop_first_scalar(chunk) =~= Seq::<u8>::empty());
                    assert(vstd::utf8::valid_utf8(Seq::<u8>::empty()));
                    assert(vstd::utf8::valid_utf8(chunk));
                    lemma_parsed_message_step(s, i, i + w, chunk);
                }
            }
        }
    }
}

/// One step of `lemma_parsed_string_utf8`: a valid chunk followed by a valid
/// rest is valid.
proof fn lemma_parsed_message_step(s: Seq<u8>, i: int, next: int, chunk: Seq<u8>)
    requires
        0 <= i < next,
        vstd::utf8::valid_utf8(chunk),
    ensures
        parse_str_body(s, next) matches Some(rest) ==> vstd::utf8::valid_utf8(chunk + rest.0),
    decreases s.len() - i, 0int,
{
    match parse_str_body(s, next) {
        Some(rest) => {
            lemma_parsed_string_utf8(s, next);
            vstd::utf8::valid_utf8_concat(chunk, rest.0);
        },
        None => {},
    }
}

/// The message of every accepted document is valid UTF-8, so everything the
/// library stores and later serves or streams is UTF-8 text.
pub proof fn lemma_post_message_utf8(s: Seq<u8>)
    ensures
        parse_post_doc(s) matches Some(p) ==> vstd::utf8::valid_utf8(p.message),
{
    let i0 = skip_ws(s, 0);
    if 0 <= i0 < s.len() && s[i0] == ('{' as u8) {
        lemma_members_message_utf8(s, skip_ws(s, i0 + 1), None, None);
    }
}

/// Through the member list, an accepted message is always one the string
/// parser produced, hence valid UTF-8.
proof fn lemma_members_message_utf8(s: Seq<u8>, i: int, m: Option<Seq<u8>>, t: Option<int>)
    requires
        (m matches Some(x) ==> vstd::utf8::valid_utf8(x)),
    ensures
        parse_members(s, i, m, t) matches Some(r) ==> vstd::utf8::valid_utf8(r.0),
    decreases s.len() - i,
{
    match parse_member(s, i, m is Some, t is Some) {
        Some(oj) => {
            let m2 = if oj.0 is MsgVal {
                Some(oj.0->MsgVal_0)
            } else {
                m
            };
            let t2 = if oj.0 is TsVal {
                Some(oj.0->TsVal_0)
            } else {
                t
            };
            assert(m2 matches Some(x) ==> vstd::utf8::valid_utf8(x)) by {
                if oj.0 is MsgVal {
                    // the message came from the string parser
                    if 0 <= i < s.len() && s[i] == ('"' as u8) {
                        match parse_str_body(s, i + 1) {
                            Some(key) => {
                                let k = skip_ws(s, key.1);
                                if 0 <= k < s.len() && s[k] == (':' as u8) {
                                    let v = skip_ws(s, k + 1);
                                    if key.0 == msg_key() {
                                        lemma_parsed_string_utf8(s, v + 1);
                                    }
                                }
                            },
                            None => {},
                        }
                    }
                }
            }
            let c = skip_ws(s, oj.1);
            if 0 <= c < s.len() && s[c] == (',' as u8) {
                let n = skip_ws(s, c + 1);
                if i < n <= s.len() {
                    lemma_members_message_utf8(s, n, m2, t2);
                }
            }
        },
        None => {},
    }
}

/// Empty snapshot: an empty history encodes as the two bytes `[]`.
pub proof fn lemma_empty_history_json()
    ensures
        posts_json(Seq::<PostView>::empty()) == seq![('[' as u8), (']' as u8)],
{
    assert(posts_json(Seq::<PostView>::empty()) =~= seq![('[' as u8), (']' as u8)]);
}


// ------------------------------------------------------------------
// The round trip: every encoded post parses back to itself
// ------------------------------------------------------------------
/// A byte that stands for itself inside a JSON string literal.
pub open spec fn is_plain(b: u8) -> bool {
    b >= 0x20 && b != ('"' as u8) && b != ('\\' as u8)
}

/// Escaping leaves a run of plain bytes unchanged.
proof fn lemma_escape_plain(m: Seq<u8>)
    requires
        forall|k: int| 0 <= k < m.len() ==> is_plain(#[trigger] m[k]),
    ensures
        escape_bytes(m) == m,
    decreases m.len(),
{
    if m.len() == 0 {
        assert(escape_bytes(m) =~= m);
    } else {
        assert(is_plain(m[0]));
        lemma_escape_plain(m.drop_first());
        assert(escape_bytes(m) =~= seq![m[0]] + m.drop_first());
        assert(seq![m[0]] + m.drop_first() =~= m);
    }
}

/// Every run of plain ASCII bytes is valid UTF-8.
proof fn lemma_ascii_valid_utf8(m: Seq<u8>)
    requires
        forall|k: int| 0 <= k < m.len() ==> #[trigger] m[k] < 0x80,
    ensures
        vstd::utf8::valid_utf8(m),
    decreases m.len(),
{
    if m.len() > 0 {
        assert(vstd::utf8::is_leading_byte_width_1(m[0]));
        assert(vstd::utf8::valid_first_scalar(m));
        assert(vstd::utf8::pop_first_scalar(m) =~= m.drop_first());
        lemma_ascii_valid_utf8(m.drop_first());
    }
}

/// Escaping leaves a plain prefix unchanged.
proof fn lemma_escape_plain_prefix(m: Seq<u8>, w: int)
    requires
        0 <= w <= m.len(),
        forall|k: int| 0 <= k < w ==> is_plain(#[trigger] m[k]),
    ensures
        escape_bytes(m) == m.subrange(0, w) + escape_bytes(m.subrange(w, m.len() as int)),
    decreases w,
{
    if w == 0 {
        assert(m.subrange(0, m.len() as int) =~= m);
        assert(m.subrange(0, 0) + escape_bytes(m) =~= escape_bytes(m));
    } else {
        assert(is_plain(m[0]));
        assert(esc_byte(m[0]) == seq![m[0]]);
        lemma_escape_plain_prefix(m.drop_first(), w - 1);
        assert(m.drop_first().subrange(0, w - 1) =~= m.subrange(1, w));
        assert(m.drop_first().subrange(w - 1, m.drop_first().len() as int) =~= m.subrange(
            w,
            m.len() as int,
        ));
        assert(seq![m[0]] + m.subrange(1, w) =~= m.subrange(0, w));
        assert(escape_bytes(m) =~= m.subrange(0, w) + escape_bytes(
            m.subrange(w, m.len() as int),
        ));
    }
}

/// Reading an escaped run back: the string parser, started right after an
/// opening quote, recovers exactly the UTF-8 bytes that were escaped.
proof fn lemma_parse_escaped(s: Seq<u8>, i: int, m: Seq<u8>)
    requires
        0 <= i,
        vstd::utf8::valid_utf8(m),
        i + escape_bytes(m).len() + 1 <= s.len(),
        s.subrange(i, i + escape_bytes(m).len()) == escape_bytes(m),
        s[i + escape_bytes(m).len()] == ('"' as u8),
    ensures
        parse_str_body(s, i) == Some((m, i + escape_bytes(m).len() + 1)),
    decreases m.len(), 1int,
{
    if m.len() == 0 {
        assert(escape_bytes(m).len() == 0);
        assert(s[i] == ('"' as u8));
    } else if m[0] < 0x80 {
        lemma_parse_escaped_ascii(s, i, m);
    } else {
        lemma_parse_escaped_multi(s, i, m);
    }
}

/// The ASCII case of `lemma_parse_escaped`: one byte of the message, plain
/// or escaped, is read back as itself.
#[verifier::rlimit(100)]
proof fn lemma_parse_escaped_ascii(s: Seq<u8>, i: int, m: Seq<u8>)
    requires
        0 <= i,
        vstd::utf8::valid_utf8(m),
        i + escape_bytes(m).len() + 1 <= s.len(),
        s.subrange(i, i + escape_bytes(m).len()) == escape_bytes(m),
        s[i + escape_bytes(m).len()] == ('"' as u8),
        m.len() > 0 && m[0] < 0x80,
    ensures
        parse_str_body(s, i) == Some((m, i + escape_bytes(m).len() + 1)),
    decreases m.len(), 0int,
{
        let b = m[0];
        let e0 = esc_byte(b);
        let rest = escape_bytes(m.drop_first());
        assert(escape_bytes(m) == e0 + rest);
        let l0 = e0.len() as int;
        assert forall|k: int| 0 <= k < l0 implies s[i + k] == e0[k] by {
            assert(s.subrange(i, i + escape_bytes(m).len())[k] == s[i + k]);
            assert((e0 + rest)[k] == e0[k]);
        }
        assert(s.subrange(i + l0, i + l0 + rest.len()) =~= rest) by {
            assert forall|k: int| 0 <= k < rest.len() implies s[i + l0 + k] == rest[k] by {
                assert(s.subrange(i, i + escape_bytes(m).len())[l0 + k] == s[i + l0 + k]);
                assert((e0 + rest)[l0 + k] == rest[k]);
            }
        }
        assert(vstd::utf8::is_leading_byte_width_1(b));
        assert(vstd::utf8::valid_first_scalar(m));
        assert(vstd::utf8::pop_first_scalar(m) =~= m.drop_first());
        assert(vstd::utf8::valid_utf8(m.drop_first()));
        lemma_parse_escaped(s, i + l0, m.drop_first());
        let tail = Some((m.drop_first(), i + escape_bytes(m).len() + 1));
        assert(parse_str_body(s, i + l0) == tail);
        assert(s[i] == e0[0]) by {
            assert(s.subrange(i, i + escape_bytes(m).len())[0] == s[i]);
            assert((e0 + rest)[0] == e0[0]);
        }
        assert(l0 >= 2 ==> s[i + 1] == e0[1]) by {
            if l0 >= 2 {
                assert(s.subrange(i, i + escape_bytes(m).len())[1] == s[i + 1]);
                assert((e0 + rest)[1] == e0[1]);
            }
        }
        assert(l0 == 6 ==> s[i + 2] == e0[2] && s[i + 3] == e0[3] && s[i + 4] == e0[4] && s[i + 5]
            == e0[5]) by {
            if l0 == 6 {
                assert(s.subrange(i, i + escape_bytes(m).len())[2] == s[i + 2]);
                assert(s.subrange(i, i + escape_bytes(m).len())[3] == s[i + 3]);
                assert(s.subrange(i, i + escape_bytes(m).len())[4] == s[i + 4]);
                assert(s.subrange(i, i + escape_bytes(m).len())[5] == s[i + 5]);
                assert((e0 + rest)[2] == e0[2]);
                assert((e0 + rest)[3] == e0[3]);
                assert((e0 + rest)[4] == e0[4]);
                assert((e0 + rest)[5] == e0[5]);
            }
        }
        if is_plain(b) {
            assert(s[i] == b);
            assert(parse_str_body(s, i) == Some(
                (seq![b] + m.drop_first(), i + escape_bytes(m).len() + 1),
            ));
        } else if b == ('"' as u8) || b == ('\\' as u8) || b == 0x08 || b == 0x09 || b == 0x0a
            || b == 0x0c || b == 0x0d {
            assert(l0 == 2 && s[i] == ('\\' as u8));
            assert(unescape_simple(e0[1]) == Some(b));
            assert(parse_str_body(s, i) == Some(
                (seq![b] + m.drop_first(), i + escape_bytes(m).len() + 1),
            ));
        } else {
            assert(b < 0x20);
            assert(l0 == 6 && s[i] == ('\\' as u8) && s[i + 1] == ('u' as u8));
            assert(s[i + 2] == ('0' as u8) && s[i + 3] == ('0' as u8));
            assert(s[i + 4] == hex_digit((b / 16) as nat));
            assert(s[i + 5] == hex_digit((b % 16) as nat));
            assert(hex_val(s[i + 2]) == Some(0nat));
            assert(hex_val(s[i + 3]) == Some(0nat));
            assert(hex_val(s[i + 4]) == Some((b / 16) as nat));
            assert(hex_val(s[i + 5]) == Some((b % 16) as nat));
            let v = ((b / 16) as nat * 16 + (b % 16) as nat) as u32;
            assert(hex4(s, i + 2) == Some(v));
            assert(v == b as u32);
            assert(v < 0xD800);
            assert(parse_u_escape(s, i) == Some((v, i + 6)));
            assert(vstd::utf8::encode_scalar(v) == seq![b]) by {
                assert(vstd::utf8::has_width_1_encoding(v));
                assert(b < 0x80 ==> ((b as u32) & 0x7F) as u8 == b) by (bit_vector);
            }
            assert(parse_str_body(s, i) == Some(
                (seq![b] + m.drop_first(), i + escape_bytes(m).len() + 1),
            ));
        }
        assert(seq![b] + m.drop_first() =~= m);
    }

/// The multi-byte case of `lemma_parse_escaped`: a whole UTF-8 scalar of the
/// message stands unescaped and is read back whole.
#[verifier::rlimit(100)]
proof fn lemma_parse_escaped_multi(s: Seq<u8>, i: int, m: Seq<u8>)
    requires
        0 <= i,
        vstd::utf8::valid_utf8(m),
        i + escape_bytes(m).len() + 1 <= s.len(),
        s.subrange(i, i + escape_bytes(m).len()) == escape_bytes(m),
        s[i + escape_bytes(m).len()] == ('"' as u8),
        m.len() > 0 && !(m[0] < 0x80),
    ensures
        parse_str_body(s, i) == Some((m, i + escape_bytes(m).len() + 1)),
    decreases m.len(), 0int,
{
        let b = m[0];
        assert(vstd::utf8::valid_first_scalar(m));
        let w = vstd::utf8::length_of_first_scalar(m);
        assert(!vstd::utf8::is_leading_byte_width_1(b));
        assert(2 <= w <= 4);
        assert(w <= m.len());
        assert(lead_width(b) == w);
        let chunk0 = m.subrange(0, w);
        assert forall|k: int| 0 <= k < w implies is_plain(#[trigger] m[k]) by {
            if k == 0 {
            } else {
                assert(vstd::utf8::is_continuation_byte(m[k]));
            }
        }
        lemma_escape_plain_prefix(m, w);
        let tail_m = m.subrange(w, m.len() as int);
        assert(escape_bytes(m) == chunk0 + escape_bytes(tail_m));
        assert(escape_bytes(m).len() == w + escape_bytes(tail_m).len());
        assert forall|k: int| 0 <= k < w implies s[i + k] == m[k] by {
            assert(s.subrange(i, i + escape_bytes(m).len())[k] == s[i + k]);
            assert((chunk0 + escape_bytes(tail_m))[k] == chunk0[k]);
        }
        assert(s[i] == b);
        assert(s.subrange(i, i + w) =~= chunk0);
        assert(vstd::utf8::valid_first_scalar(chunk0)) by {
            assert(chunk0[0] == m[0]);
            assert(w >= 2 ==> chunk0[1] == m[1]);
            assert(w >= 3 ==> chunk0[2] == m[2]);
            assert(w >= 4 ==> chunk0[3] == m[3]);
            assert(vstd::utf8::valid_leading_and_continuation_bytes_first_codepoint(chunk0));
            assert(vstd::utf8::decode_first_codepoint(chunk0)
                == vstd::utf8::decode_first_codepoint(m));
            assert(vstd::utf8::length_of_first_codepoint(chunk0)
                == vstd::utf8::length_of_first_codepoint(m));
        }
        assert(s.subrange(i + w, i + w + escape_bytes(tail_m).len()) =~= escape_bytes(tail_m))
            by {
            assert forall|k: int| 0 <= k < escape_bytes(tail_m).len() implies s[i + w + k]
                == escape_bytes(tail_m)[k] by {
                assert(s.subrange(i, i + escape_bytes(m).len())[w + k] == s[i + w + k]);
                assert((chunk0 + escape_bytes(tail_m))[w + k] == escape_bytes(tail_m)[k]);
            }
        }
        assert(vstd::utf8::pop_first_scalar(m) =~= tail_m);
        assert(vstd::utf8::valid_utf8(tail_m));
        lemma_parse_escaped(s, i + w, tail_m);
        assert(parse_str_body(s, i + w) == Some(
            (tail_m, i + escape_bytes(m).len() + 1),
        ));
        assert(parse_str_body(s, i) == Some(
            (chunk0 + tail_m, i + escape_bytes(m).len() + 1),
        ));
        assert(chunk0 + tail_m =~= m);
    }

/// Powers of ten.
pub open spec fn pow10(k: nat) -> int
    decreases k,
{
    if k == 0 {
        1
    } else {
        10 * pow10((k - 1) as nat)
    }
}

/// Every byte that `dec_digits` writes is a decimal digit, and the first one
/// is `0` only for the number zero itself.
proof fn lemma_dec_digits_shape(n: nat)
    ensures
        dec_digits(n).len() >= 1,
        forall|k: int| 0 <= k < dec_digits(n).len() ==> is_digit(#[trigger] dec_digits(n)[k]),
        n > 0 ==> dec_digits(n)[0] != ('0' as u8),
    decreases n,
{
    if n >= 10 {
        lemma_dec_digits_shape(n / 10);
        assert forall|k: int| 0 <= k < dec_digits(n).len() implies is_digit(
            #[trigger] dec_digits(n)[k],
        ) by {
            if k < dec_digits(n / 10).len() {
                assert(dec_digits(n)[k] == dec_digits(n / 10)[k]);
            } else {
                assert(dec_digits(n)[k] == (48 + n % 10) as u8);
            }
        }
        assert(dec_digits(n)[0] == dec_digits(n / 10)[0]);
    }
}

/// Folding the digits of `n` onto an accumulator multiplies the accumulator
/// past them and adds `n`.
proof fn lemma_parse_dec_digits(s: Seq<u8>, i: int, acc: int, n: nat)
    requires
        0 <= i,
        i + dec_digits(n).len() <= s.len(),
        s.subrange(i, i + dec_digits(n).len()) == dec_digits(n),
    ensures
        parse_num_body(s, i, acc) == parse_num_body(
            s,
            i + dec_digits(n).len(),
            acc * pow10(dec_digits(n).len() as nat) + n,
        ),
    decreases n,
{
    lemma_dec_digits_shape(n);
    if n < 10 {
        assert(s[i] == (48 + n) as u8) by {
            assert(s.subrange(i, i + 1)[0] == s[i]);
        }
        assert(parse_num_body(s, i, acc) == parse_num_body(s, i + 1, acc * 10 + n));
        assert(pow10(0) == 1);
        assert(pow10(1) == 10);
    } else {
        let hd = dec_digits(n / 10);
        let l = hd.len() as int;
        assert(dec_digits(n) == hd.push((48 + n % 10) as u8));
        assert(s.subrange(i, i + l) =~= hd) by {
            assert forall|k: int| 0 <= k < l implies s[i + k] == hd[k] by {
                assert(s.subrange(i, i + dec_digits(n).len())[k] == s[i + k]);
                assert(dec_digits(n)[k] == hd[k]);
            }
        }
        lemma_parse_dec_digits(s, i, acc, n / 10);
        let mid = acc * pow10(l as nat) + n / 10;
        assert(parse_num_body(s, i, acc) == parse_num_body(s, i + l, mid));
        assert(s[i + l] == (48 + n % 10) as u8) by {
            assert(s.subrange(i, i + dec_digits(n).len())[l] == s[i + l]);
            assert(dec_digits(n)[l] == (48 + n % 10) as u8);
        }
        assert(is_digit(s[i + l]));
        assert(parse_num_body(s, i + l, mid) == parse_num_body(
            s,
            i + l + 1,
            mid * 10 + (n % 10),
        ));
        assert(mid * 10 + n % 10 == acc * pow10((l + 1) as nat) + n) by {
            assert(pow10((l + 1) as nat) == 10 * pow10(l as nat));
            assert((acc * pow10(l as nat) + n / 10) * 10 == acc * (10 * pow10(l as nat)) + (n
                / 10) * 10) by (nonlinear_arith);
            assert((n / 10) * 10 + n % 10 == n);
        }
    }
}

/// Reading a decimal integer back: the number parser, pointed at the decimal
/// form of a timestamp followed by a non-digit, recovers the timestamp.
proof fn lemma_parse_int_of_dec(s: Seq<u8>, i: int, t: int)
    requires
        0 <= i,
        i64::MIN as int <= t <= i64::MAX as int,
        i + dec_int(t).len() < s.len(),
        s.subrange(i, i + dec_int(t).len()) == dec_int(t),
        !is_digit(s[i + dec_int(t).len()]),
    ensures
        parse_int(s, i) == Some((t, i + dec_int(t).len())),
{
    if t >= 0 {
        let n = t as nat;
        lemma_dec_digits_shape(n);
        assert(dec_int(t) == dec_digits(n));
        assert forall|k: int| 0 <= k < dec_digits(n).len() implies s[i + k] == dec_digits(n)[k] by {
            assert(s.subrange(i, i + dec_int(t).len())[k] == s[i + k]);
        }
        assert(s[i] == dec_digits(n)[0]);
        assert(is_digit(s[i]));
        assert(s[i] != ('-' as u8));
        if t == 0 {
            assert(dec_digits(n).len() == 1);
            assert(!is_digit(s[i + 1]));
        } else {
            assert(s[i] != ('0' as u8));
        }
        lemma_parse_dec_digits(s, i, 0, n);
        assert(0 * pow10(dec_digits(n).len() as nat) + n == n) by (nonlinear_arith);
        assert(parse_num_body(s, i + dec_digits(n).len(), n as int) == (
            t,
            i + dec_digits(n).len(),
        ));
    } else {
        let n = (-t) as nat;
        lemma_dec_digits_shape(n);
        assert(dec_int(t) == seq![('-' as u8)] + dec_digits(n));
        assert forall|k: int| 0 <= k < dec_int(t).len() implies s[i + k] == dec_int(t)[k] by {
            assert(s.subrange(i, i + dec_int(t).len())[k] == s[i + k]);
        }
        assert(s[i] == ('-' as u8)) by {
            assert(s.subrange(i, i + dec_int(t).len())[0] == s[i]);
            assert(dec_int(t)[0] == ('-' as u8));
        }
        let j = i + 1;
        assert forall|k: int| 0 <= k < dec_digits(n).len() implies s[j + k] == dec_digits(n)[k] by {
            assert(dec_int(t)[1 + k] == dec_digits(n)[k]);
        }
        assert(s.subrange(j, j + dec_digits(n).len()) =~= dec_digits(n));
        assert(s[j] == dec_digits(n)[0]) by {
            assert(s.subrange(i, i + dec_int(t).len())[1] == s[j]);
            assert(dec_int(t)[1] == dec_digits(n)[0]);
        }
        assert(is_digit(s[j]));
        assert(n > 0);
        assert(s[j] != ('0' as u8));
        lemma_parse_dec_digits(s, j, 0, n);
        assert(0 * pow10(dec_digits(n).len() as nat) + n == n) by (nonlinear_arith);
        assert(parse_num_body(s, j + dec_digits(n).len(), n as int) == (
            n as int,
            i + dec_int(t).len(),
        ));
    }
}


/// The walk behind the round trip: where every token of an encoded post
/// sits, and what the member list makes of them.
#[verifier::rlimit(100)]
proof fn lemma_post_json_walk(p: PostView)
    requires
        i64::MIN as int <= p.timestamp <= i64::MAX as int,
        vstd::utf8::valid_utf8(p.message),
    ensures
        ({
            let s = post_json(p);
            let e = escape_bytes(p.message).len() as int;
            let d = dec_int(p.timestamp).len() as int;
            &&& s.len() == 27 + e + d
            &&& s[0] == ('{' as u8)
            &&& skip_ws(s, 0) == 0
            &&& skip_ws(s, 1) == 1
            &&& parse_members(s, 1, None::<Seq<u8>>, None::<int>) == Some(
                (p.message, p.timestamp, 27 + e + d),
            )
            &&& skip_ws(s, 27 + e + d) == 27 + e + d
        }),
{
    let s = post_json(p);
    let esc = escape_bytes(p.message);
    let e = esc.len() as int;
    let dec = dec_int(p.timestamp);
    let d = dec.len() as int;
    assert(msg_key().len() == 7);
    assert(ts_key().len() == 9);
    lemma_dec_digits_shape(if p.timestamp >= 0 {
        p.timestamp as nat
    } else {
        (-p.timestamp) as nat
    });
    assert(d >= 1);
    assert(s.len() == 27 + e + d);

    // the fixed delimiters of the document
    assert(s[0] == ('{' as u8));
    assert(s[1] == ('"' as u8));
    assert(s[9] == ('"' as u8));
    assert(s[10] == (':' as u8));
    assert(s[11] == ('"' as u8));
    assert(s[12 + e] == ('"' as u8));
    assert(s[13 + e] == (',' as u8));
    assert(s[14 + e] == ('"' as u8));
    assert(s[24 + e] == ('"' as u8));
    assert(s[25 + e] == (':' as u8));
    assert(s[26 + e + d] == ('}' as u8));

    // the two keys and the two payloads sit where the parser will look
    assert(s.subrange(2, 9) =~= msg_key());
    assert(s.subrange(12, 12 + e) =~= esc);
    assert(s.subrange(15 + e, 24 + e) =~= ts_key());
    assert(s.subrange(26 + e, 26 + e + d) =~= dec);

    // keys escape to themselves
    assert(forall|k: int| 0 <= k < msg_key().len() ==> is_plain(#[trigger] msg_key()[k]));
    assert(forall|k: int| 0 <= k < ts_key().len() ==> is_plain(#[trigger] ts_key()[k]));
    lemma_escape_plain(msg_key());
    lemma_escape_plain(ts_key());

    // the first member: "message":"…"
    assert(forall|k: int| 0 <= k < msg_key().len() ==> #[trigger] msg_key()[k] < 0x80);
    lemma_ascii_valid_utf8(msg_key());
    lemma_parse_escaped(s, 2, msg_key());
    assert(parse_str_body(s, 2) == Some((msg_key(), 10int)));
    assert(skip_ws(s, 10) == 10);
    assert(skip_ws(s, 11) == 11);
    lemma_parse_escaped(s, 12, p.message);
    assert(parse_str_body(s, 12) == Some((p.message, 13 + e)));
    assert(parse_member(s, 1, false, false) == Some((MemberVal::MsgVal(p.message), 13 + e)));

    // the second member: "timestamp":…
    assert(forall|k: int| 0 <= k < ts_key().len() ==> #[trigger] ts_key()[k] < 0x80);
    lemma_ascii_valid_utf8(ts_key());
    lemma_parse_escaped(s, 15 + e, ts_key());
    assert(parse_str_body(s, 15 + e) == Some((ts_key(), 25 + e)));
    assert(skip_ws(s, 25 + e) == 25 + e);
    assert(skip_ws(s, 26 + e) == 26 + e) by {
        assert(s[26 + e] == dec[0]) by {
            assert(s.subrange(26 + e, 26 + e + d)[0] == s[26 + e]);
        }
        assert(!is_ws(dec[0]));
    }
    assert(ts_key() != msg_key());
    assert(!is_digit(s[26 + e + d]));
    lemma_parse_int_of_dec(s, 26 + e, p.timestamp);
    assert(parse_int(s, 26 + e) == Some((p.timestamp, 26 + e + d)));
    assert(parse_member(s, 14 + e, true, false) == Some(
        (MemberVal::TsVal(p.timestamp), 26 + e + d),
    ));

    // the member list and the whole document
    assert(skip_ws(s, 0) == 0);
    assert(skip_ws(s, 1) == 1);
    assert(skip_ws(s, 13 + e) == 13 + e);
    assert(skip_ws(s, 14 + e) == 14 + e);
    assert(skip_ws(s, 26 + e + d) == 26 + e + d);
    assert(skip_ws(s, 27 + e + d) == 27 + e + d);
    assert(parse_members(s, 14 + e, Some(p.message), None::<int>) == Some(
        (p.message, p.timestamp, 27 + e + d),
    ));
    assert(parse_members(s, 1, None::<Seq<u8>>, None::<int>) == Some(
        (p.message, p.timestamp, 27 + e + d),
    ));
}

/// The round trip: for every post whose message is UTF-8 text (the only kind
/// the parser ever produces), the parser accepts what the encoder writes and
/// recovers exactly the post that was encoded. Together with the handler
/// contracts this closes the loop from `POST /posts` through the history and
/// the SSE stream back to the client.
pub proof fn lemma_parse_post_json(p: PostView)
    requires
        i64::MIN as int <= p.timestamp <= i64::MAX as int,
        vstd::utf8::valid_utf8(p.message),
    ensures
        parse_post_doc(post_json(p)) == Some(p),
{
    let s = post_json(p);
    let e = escape_bytes(p.message).len() as int;
    let d = dec_int(p.timestamp).len() as int;
    lemma_post_json_walk(p);
    assert(skip_ws(s, 0) == 0 && s[0] == ('{' as u8));
    assert(parse_post_doc(s) == Some(PostView { message: p.message, timestamp: p.timestamp }));
    assert(PostView { message: p.message, timestamp: p.timestamp } == p);
}

} // verus!
