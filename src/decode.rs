//! Percent-decoding of byte spans.
use vstd::prelude::*;

verus! {

/// The escape introducer `%`.
pub const PERCENT: u8 = 0x25;
/// The pair separator `&`.
pub const AMPERSAND: u8 = 0x26;
/// The key/value separator `=`.
pub const EQUALS: u8 = 0x3d;
/// The bracket that opens a subkey, `[`.
pub const OPEN_BRACKET: u8 = 0x5b;
/// The bracket that closes a subkey, `]`.
pub const CLOSE_BRACKET: u8 = 0x5d;
/// ASCII digits and hexadecimal letters.
pub const DIGIT_0: u8 = 0x30;
pub const DIGIT_9: u8 = 0x39;
pub const LOWER_A: u8 = 0x61;
pub const LOWER_F: u8 = 0x66;
pub const UPPER_A: u8 = 0x41;
pub const UPPER_F: u8 = 0x46;

/// Whether `c` is an ASCII hexadecimal digit.
pub open spec fn is_hex(c: u8) -> bool {
    (DIGIT_0 <= c && c <= DIGIT_9) || (LOWER_A <= c && c <= LOWER_F) || (UPPER_A <= c && c <= UPPER_F)
}

/// The value of the hexadecimal digit `c`.
pub open spec fn hex_val(c: u8) -> u8 {
    if DIGIT_0 <= c && c <= DIGIT_9 {
        (c - DIGIT_0) as u8
    } else if LOWER_A <= c && c <= LOWER_F {
        (c - LOWER_A + 10) as u8
    } else {
        (c - UPPER_A + 10) as u8
    }
}

/// The byte that the two digits `hi` and `lo` encode, if both are hexadecimal.
pub open spec fn hex_pair(hi: u8, lo: u8) -> Option<u8> {
    if is_hex(hi) && is_hex(lo) {
        Some((hex_val(hi) * 16 + hex_val(lo)) as u8)
    } else {
        None
    }
}

/// Whether a valid escape `%XX` starts at position `i` of `s`.
pub open spec fn escape_at(s: Seq<u8>, i: int) -> bool {
    0 <= i && i + 2 < s.len() && s[i] == PERCENT && hex_pair(s[i + 1], s[i + 2]) is Some
}

/// Whether `s` holds at least one valid escape.
pub open spec fn has_escape(s: Seq<u8>) -> bool {
    exists|i: int| escape_at(s, i)
}

/// The bytes that `s` stands for: each valid escape replaced by the byte it
/// encodes, every other byte (an invalid `%` included) kept as it is.
pub open spec fn decode(s: Seq<u8>) -> Seq<u8>
    decreases s.len(),
{
    if s.len() == 0 {
        Seq::empty()
    } else if escape_at(s, 0) {
        seq![hex_pair(s[1], s[2])->Some_0] + decode(s.skip(3))
    } else {
        seq![s[0]] + decode(s.skip(1))
    }
}

/// Decoded bytes: a view into the input where nothing needed decoding, or a
/// freshly allocated buffer where an escape was decoded.
#[derive(Debug, PartialEq, Eq)]
pub enum Decoded<'a> {
    Borrowed(&'a [u8]),
    Owned(Vec<u8>),
}

impl<'a> View for Decoded<'a> {
    type V = Seq<u8>;

    open spec fn view(&self) -> Seq<u8> {
        match self {
            Decoded::Borrowed(s) => s@,
            Decoded::Owned(v) => v@,
        }
    }
}

/// The bytes that an optional decoded value holds.
pub open spec fn opt_view(o: Option<Decoded>) -> Option<Seq<u8>> {
    match o {
        Some(d) => Some(d@),
        None => None,
    }
}

/// `o` is what decoding the optional span `v` gives: nothing where there is
/// no span, else the decoded bytes, borrowed exactly where `v` holds no escape.
pub open spec fn decodes_from(o: Option<Decoded>, v: Option<Seq<u8>>) -> bool {
    match (o, v) {
        (Some(d), Some(s)) => d@ == decode(s) && (d is Borrowed <==> !has_escape(s)),
        (None, None) => true,
        _ => false,
    }
}

impl<'a> Decoded<'a> {
    /// The decoded bytes, wherever they are held.
    pub fn as_slice(&self) -> (r: &[u8])
        ensures
            r@ == self@,
    {
        match self {
            Decoded::Borrowed(s) => s,
            Decoded::Owned(v) => v.as_slice(),
        }
    }
}

fn hex_digit(c: u8) -> (r: Option<u8>)
    ensures
        r == (if is_hex(c) { Some(hex_val(c)) } else { None::<u8> }),
{
    if DIGIT_0 <= c && c <= DIGIT_9 {
        Some(c - DIGIT_0)
    } else if LOWER_A <= c && c <= LOWER_F {
        Some(c - LOWER_A + 10)
    } else if UPPER_A <= c && c <= UPPER_F {
        Some(c - UPPER_A + 10)
    } else {
        None
    }
}

/// The byte encoded by the hexadecimal digits `hi` and `lo`.
pub fn parse_char(hi: u8, lo: u8) -> (r: Option<u8>)
    ensures
        r == hex_pair(hi, lo),
{
    match (hex_digit(hi), hex_digit(lo)) {
        (Some(h), Some(l)) => Some(h * 16 + l),
        _ => None,
    }
}

proof fn lemma_decode_unfold(s: Seq<u8>, i: int)
    requires
        0 <= i < s.len(),
    ensures
        escape_at(s, i) ==> decode(s.subrange(i, s.len() as int)) == seq![
            hex_pair(s[i + 1], s[i + 2])->Some_0,
        ] + decode(s.subrange(i + 3, s.len() as int)),
        !escape_at(s, i) ==> decode(s.subrange(i, s.len() as int)) == seq![s[i]] + decode(
            s.subrange(i + 1, s.len() as int),
        ),
{
    let t = s.subrange(i, s.len() as int);
    assert(escape_at(s, i) == escape_at(t, 0));
    if escape_at(s, i) {
        assert(t.skip(3) =~= s.subrange(i + 3, s.len() as int));
    } else {
        assert(t.skip(1) =~= s.subrange(i + 1, s.len() as int));
    }
}

proof fn lemma_decode_plain(s: Seq<u8>)
    requires
        !has_escape(s),
    ensures
        decode(s) == s,
    decreases s.len(),
{
    if s.len() > 0 {
        assert(!escape_at(s, 0));
        let t = s.skip(1);
        assert forall|i: int| !escape_at(t, i) by {
            assert(!escape_at(s, i + 1));
        }
        lemma_decode_plain(t);
        assert(seq![s[0]] + t =~= s);
    }
}

/// A span without `%` holds no escape and decodes to itself; so
/// `parse_bytes` hands back a borrow of it.
pub proof fn lemma_plain_decodes_to_itself(s: Seq<u8>)
    requires
        forall|i: int| 0 <= i < s.len() ==> s[i] != PERCENT,
    ensures
        !has_escape(s),
        decode(s) == s,
{
    assert forall|i: int| !escape_at(s, i) by {
        if 0 <= i < s.len() {
            assert(s[i] != PERCENT);
        }
    }
    lemma_decode_plain(s);
}

/// Percent-decodes `s`. Where `s` holds no valid escape the result borrows
/// `s` itself and nothing is allocated.
pub fn parse_bytes<'a>(s: &'a [u8]) -> (r: Decoded<'a>)
    ensures
        r@ == decode(s@),
        r is Borrowed <==> !has_escape(s@),
        r is Borrowed ==> r->Borrowed_0 == s,
{
    let n = s.len();
    let mut out: Vec<u8> = Vec::new();
    let mut owned = false;
    let mut i: usize = 0;
    proof {
        assert(s@.subrange(0, n as int) =~= s@);
    }
    while i < n
        invariant
            n == s@.len(),
            i <= n,
            decode(s@) == (if owned { out@ } else { s@.subrange(0, i as int) }) + decode(
                s@.subrange(i as int, n as int),
            ),
            owned <==> exists|j: int| 0 <= j < i && escape_at(s@, j),
            !owned ==> out@.len() == 0,
        decreases n - i,
    {
        proof {
            lemma_decode_unfold(s@, i as int);
        }
        let c = s[i];
        let esc = if c == PERCENT && n - i > 2 {
            parse_char(s[i + 1], s[i + 2])
        } else {
            None
        };
        match esc {
            Some(b) => {
                assert(escape_at(s@, i as int));
                if !owned {
                    let mut j: usize = 0;
                    while j < i
                        invariant
                            j <= i < n,
                            n == s@.len(),
                            out@ == s@.subrange(0, j as int),
                        decreases i - j,
                    {
                        out.push(s[j]);
                        assert(out@ =~= s@.subrange(0, j + 1));
                        j += 1;
                    }
                    owned = true;
                }
                let ghost prev = out@;
                out.push(b);
                proof {
                    assert(out@ == prev + seq![b]);
                    assert(decode(s@) == out@ + decode(s@.subrange(i + 3, n as int)));
                }
                i += 3;
            },
            None => {
                assert(!escape_at(s@, i as int));
                let ghost prev = if owned { out@ } else { s@.subrange(0, i as int) };
                if owned {
                    out.push(c);
                }
                proof {
                    if !owned {
                        assert(s@.subrange(0, i + 1) =~= prev + seq![c]);
                    }
                }
                i += 1;
            },
        }
    }
    proof {
        assert(s@.subrange(n as int, n as int) =~= Seq::<u8>::empty());
        assert(decode(Seq::<u8>::empty()) =~= Seq::<u8>::empty());
    }
    if owned {
        Decoded::Owned(out)
    } else {
        proof {
            assert(s@.subrange(0, n as int) =~= s@);
        }
        Decoded::Borrowed(s)
    }
}

} // verus!
