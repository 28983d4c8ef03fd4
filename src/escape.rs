//! Decoding of a single field: `\ooo` octal escapes back into raw bytes.
use vstd::prelude::*;

verus! {

/// The byte that introduces an octal escape.
pub const BACKSLASH: u8 = 92;

/// Why an escaped field could not be decoded.
#[derive(Debug, Clone, Copy, PartialEq, Eq, Structural)]
pub enum EscapeError {
    /// Fewer than three bytes follow a backslash.
    Truncated,
    /// One of the three bytes after a backslash is not in `0`..=`7`.
    InvalidDigit,
}

impl EscapeError {
    /// A short description of the failure.
    pub fn message(&self) -> (r: &'static str)
        ensures
            r@ == match *self {
                EscapeError::Truncated => "truncated octal code"@,
                EscapeError::InvalidDigit => "invalid octal digit"@,
            },
    {
        match self {
            EscapeError::Truncated => "truncated octal code",
            EscapeError::InvalidDigit => "invalid octal digit",
        }
    }
}

pub open spec fn is_octal_digit(b: u8) -> bool {
    48 <= b <= 55
}

/// The byte written by the escape `\abc`: the three digits read as a number
/// in base eight, kept to its low eight bits.
pub open spec fn octal_byte(a: u8, b: u8, c: u8) -> u8 {
    (((a - 48) * 64 + (b - 48) * 8 + (c - 48)) % 256) as u8
}

/// The failure, if any, of the escape that opens `t` (whose first byte is a
/// backslash): the first of the three following positions that is missing or
/// holds no octal digit.
pub open spec fn escape_error(t: Seq<u8>) -> Option<EscapeError> {
    if t.len() < 2 {
        Some(EscapeError::Truncated)
    } else if !is_octal_digit(t[1]) {
        Some(EscapeError::InvalidDigit)
    } else if t.len() < 3 {
        Some(EscapeError::Truncated)
    } else if !is_octal_digit(t[2]) {
        Some(EscapeError::InvalidDigit)
    } else if t.len() < 4 {
        Some(EscapeError::Truncated)
    } else if !is_octal_digit(t[3]) {
        Some(EscapeError::InvalidDigit)
    } else {
        None
    }
}

/// `head` put in front of a decoding result; an error passes through.
pub open spec fn prepend(head: Seq<u8>, r: Result<Seq<u8>, EscapeError>) -> Result<Seq<u8>, EscapeError> {
    match r {
        Ok(s) => Ok(head + s),
        Err(e) => Err(e),
    }
}

/// What a field decodes to: every byte but a backslash stands for itself, and
/// a backslash with three octal digits stands for the byte they spell.
pub open spec fn decoded(t: Seq<u8>) -> Result<Seq<u8>, EscapeError>
    decreases t.len(),
{
    if t.len() == 0 {
        Ok(Seq::empty())
    } else if t[0] == BACKSLASH {
        match escape_error(t) {
            Some(e) => Err(e),
            None => prepend(seq![octal_byte(t[1], t[2], t[3])], decoded(t.subrange(4, t.len() as int))),
        }
    } else {
        prepend(seq![t[0]], decoded(t.subrange(1, t.len() as int)))
    }
}

proof fn lemma_prepend_empty(r: Result<Seq<u8>, EscapeError>)
    ensures
        prepend(Seq::empty(), r) == r,
{
    if let Ok(s) = r {
        assert(Seq::<u8>::empty() + s =~= s);
    }
}

proof fn lemma_prepend_assoc(a: Seq<u8>, b: Seq<u8>, r: Result<Seq<u8>, EscapeError>)
    ensures
        prepend(a, prepend(b, r)) == prepend(a + b, r),
{
    if let Ok(s) = r {
        assert(a + (b + s) =~= (a + b) + s);
    }
}

/// A field made only of printable ASCII bytes other than the backslash
/// decodes to itself.
pub proof fn lemma_plain_field_decodes_to_itself(t: Seq<u8>)
    requires
        forall|i: int| 0 <= i < t.len() ==> 32 <= #[trigger] t[i] <= 126 && t[i] != BACKSLASH,
    ensures
        decoded(t) == Ok::<Seq<u8>, EscapeError>(t),
    decreases t.len(),
{
    if t.len() > 0 {
        let rest = t.subrange(1, t.len() as int);
        assert forall|i: int| 0 <= i < rest.len() implies 32 <= #[trigger] rest[i] <= 126
            && rest[i] != BACKSLASH by {
            assert(rest[i] == t[i + 1]);
        }
        lemma_plain_field_decodes_to_itself(rest);
        assert(t[0] != BACKSLASH);
        assert(seq![t[0]] + rest =~= t);
    } else {
        assert(t =~= Seq::<u8>::empty());
    }
}

/// Decodes one field of the table.
pub fn decode_field(token: &[u8]) -> (r: Result<Vec<u8>, EscapeError>)
    ensures
        match r {
            Ok(v) => decoded(token@) == Ok::<Seq<u8>, EscapeError>(v@),
            Err(e) => decoded(token@) == Err::<Seq<u8>, EscapeError>(e),
        },
{
    let mut out: Vec<u8> = Vec::new();
    let n = token.len();
    let mut i: usize = 0;
    proof {
        assert(token@.subrange(0, n as int) =~= token@);
        lemma_prepend_empty(decoded(token@));
    }
    while i < n
        invariant
            n == token@.len(),
            i <= n,
            decoded(token@) == prepend(out@, decoded(token@.subrange(i as int, n as int))),
        decreases n - i,
    {
        let ghost rest = token@.subrange(i as int, n as int);
        let b = token[i];
        let ghost before = out@;
        if b == BACKSLASH {
            let mut code: u32 = 0;
            let mut k: usize = 1;
            while k < 4
                invariant
                    n == token@.len(),
                    i < n,
                    1 <= k <= 4,
                    rest == token@.subrange(i as int, n as int),
                    rest[0] == BACKSLASH,
                    decoded(token@) == prepend(out@, decoded(rest)),
                    forall|j: int| 1 <= j < k ==> j < rest.len() && is_octal_digit(#[trigger] rest[j]),
                    k == 1 ==> code == 0,
                    k == 2 ==> code == rest[1] - 48,
                    k == 3 ==> code == (rest[1] - 48) * 8 + (rest[2] - 48),
                    k == 4 ==> code == (rest[1] - 48) * 64 + (rest[2] - 48) * 8 + (rest[3] - 48),
                decreases 4 - k,
            {
                if i + k >= n {
                    assert(escape_error(rest) == Some(EscapeError::Truncated));
                    return Err(EscapeError::Truncated);
                }
                let d = token[i + k];
                if d < 48 || d > 55 {
                    assert(escape_error(rest) == Some(EscapeError::InvalidDigit));
                    return Err(EscapeError::InvalidDigit);
                }
                code = code * 8 + (d - 48) as u32;
                k = k + 1;
            }
            assert(escape_error(rest) is None);
            let byte = (code % 256) as u8;
            assert(decoded(rest) == prepend(seq![byte], decoded(rest.subrange(4, rest.len() as int))));
            assert(rest.subrange(4, rest.len() as int) =~= token@.subrange(i + 4, n as int));
            proof {
                lemma_prepend_assoc(out@, seq![byte], decoded(token@.subrange(i + 4, n as int)));
            }
            out.push(byte);
            assert(out@ =~= before + seq![byte]);
            i = i + 4;
        } else {
            assert(rest.subrange(1, rest.len() as int) =~= token@.subrange(i + 1, n as int));
            assert(decoded(rest) == prepend(seq![b], decoded(rest.subrange(1, rest.len() as int))));
            proof {
                lemma_prepend_assoc(out@, seq![b], decoded(token@.subrange(i + 1, n as int)));
            }
            out.push(b);
            assert(out@ =~= before + seq![b]);
            i = i + 1;
        }
    }
    assert(out@ + Seq::<u8>::empty() =~= out@);
    Ok(out)
}

} // verus!
