//! The meaning of a compressed stream: what the decoder writes for it.
use vstd::prelude::*;
use crate::error::Error;
use crate::format::{
    heavy_len_of, EXT_HEADER_SIZE, HEADER_SIZE, HEAVY_LITERAL_SUFFIX, HEAVY_MIN_DISTANCE,
    HEAVY_SMALL_LIM, HEAVY_TOKEN_LIT_MAX, LITERAL_SUFFIX, MIN_DISTANCE, SMALL_LIM, TOKEN_LIT_MAX,
};
use crate::primitives::{le16, le32, le56, le64};

verus! {

/// The size field of a stream header: the low 56 bits of its first 8 bytes.
pub open spec fn header_size(src: Seq<u8>) -> int {
    le56(src, 0)
}

/// The flags byte of a stream header.
pub open spec fn header_flags(src: Seq<u8>) -> u8 {
    src[7]
}

/// The size and flags a stream header declares, or why it cannot be read.
pub open spec fn spec_header_fields(src: Seq<u8>) -> Result<(usize, u8), Error> {
    if src.len() < HEADER_SIZE {
        Err(Error::InputTooShort)
    } else if header_size(src) > usize::MAX {
        Err(Error::SizeOverflow { size: header_size(src) as u64 })
    } else {
        Ok((header_size(src) as usize, header_flags(src)))
    }
}

/// Reads literal-length extension bytes from `control` onward (never at or past
/// `limit`), adding each to `acc` until one is below 255. Gives the total and
/// the position after the last byte read, or `None` for a malformed run.
pub open spec fn ext_run(src: Seq<u8>, control: int, limit: int, acc: int) -> Option<(int, int)>
    decreases limit - control,
{
    if control >= limit {
        None
    } else {
        let acc2 = acc + src[control];
        if acc2 > usize::MAX {
            None
        } else if src[control] < 255 {
            Some((acc2, control + 1))
        } else {
            ext_run(src, control + 1, limit, acc2)
        }
    }
}

/// Where reading literal-length extension bytes from `control` stops: after
/// the byte that ends the run or makes the total overflow, or at `limit` when
/// the run reaches it.
pub open spec fn ext_end(src: Seq<u8>, control: int, limit: int, acc: int) -> int
    decreases limit - control,
{
    if control >= limit {
        control
    } else {
        let acc2 = acc + src[control];
        if acc2 > usize::MAX || src[control] < 255 {
            control + 1
        } else {
            ext_end(src, control + 1, limit, acc2)
        }
    }
}

/// What an extension run gives: a later position, no past `limit`, and a
/// total between `acc` and `usize::MAX`.
pub proof fn lemma_ext_run_bounds(src: Seq<u8>, control: int, limit: int, acc: int)
    ensures
        ext_run(src, control, limit, acc) matches Some((l, c)) ==> control < c <= limit && acc <= l
            <= usize::MAX,
    decreases limit - control,
{
    if control < limit {
        let acc2 = acc + src[control];
        if acc2 <= usize::MAX && src[control] >= 255 {
            lemma_ext_run_bounds(src, control + 1, limit, acc2);
        }
    }
}

/// `n` bytes appended to `out`, each a copy of the byte `dis` before it
/// (an LZ77 back-reference, copied forward).
pub open spec fn forward_copy(out: Seq<u8>, dis: int, n: int) -> Seq<u8>
    decreases n,
{
    if n <= 0 {
        out
    } else {
        let prev = forward_copy(out, dis, n - 1);
        prev.push(prev[prev.len() - dis])
    }
}

/// A light-format token at `control`: literal length, match length, distance
/// and the position of the next token; `None` when its literal-length
/// extension is malformed.
pub open spec fn light_token(src: Seq<u8>, control: int, literals: int) -> Option<(int, int, int, int)> {
    let token = src[control] as int;
    let lit = token / 32;
    let ml = token % 32 + 3;
    let dis = le16(src, control + 1) + MIN_DISTANCE;
    if lit == TOKEN_LIT_MAX {
        match ext_run(src, control + 3, literals, TOKEN_LIT_MAX as int) {
            Some((l, c)) => Some((l, ml, dis, c)),
            None => None,
        }
    } else {
        Some((lit, ml, dis, control + 3))
    }
}

/// The output of one light token after `out`: its literals, then its match.
/// A match copies at most 32 bytes; the rest of a longer match keeps what the
/// destination buffer held before decoding (`dst0`).
pub open spec fn light_step(
    src: Seq<u8>,
    dst0: Seq<u8>,
    toe: int,
    control: int,
    literals: int,
    out: Seq<u8>,
) -> Option<(int, int, Seq<u8>)> {
    match light_token(src, control, literals) {
        None => None,
        Some((lit, ml, dis, next)) => {
            let al = out.len() + lit;
            if lit > literals || dis > al || al + ml > toe {
                None
            } else {
                let lits = literals - lit;
                let out2 = out + src.subrange(lits, literals);
                let n = if ml < 32 { ml } else { 32 };
                Some(
                    (
                        next,
                        lits,
                        forward_copy(out2, dis, n) + dst0.subrange(al + n, al + ml),
                    ),
                )
            }
        }
    }
}

/// Where a light token at `control` that cannot be decoded leaves the control
/// and literal positions: past what was read of it, and with the literal
/// position moved back by its literal length once that length fits.
pub open spec fn light_fail_state(src: Seq<u8>, control: int, literals: int) -> (int, int) {
    match light_token(src, control, literals) {
        None => (ext_end(src, control + 3, literals, TOKEN_LIT_MAX as int), literals),
        Some((lit, ml, dis, next)) => if lit > literals {
            (next, literals)
        } else {
            (next, literals - lit)
        },
    }
}

/// Each light step moves the control position forward and the literal
/// position back.
pub proof fn lemma_light_step_moves(
    src: Seq<u8>,
    dst0: Seq<u8>,
    toe: int,
    control: int,
    literals: int,
    out: Seq<u8>,
)
    ensures
        light_step(src, dst0, toe, control, literals, out) matches Some((c, l, o)) ==> control < c
            && l <= literals,
{
    lemma_ext_run_bounds(src, control + 3, literals, TOKEN_LIT_MAX as int);
}

/// Decodes light tokens from `control` while a whole three-byte token fits
/// before the literal stream; the output must then be exactly `toe` bytes
/// long. (A step
/// always moves forward, `lemma_light_step_moves`; the guard on it only makes
/// the recursion's measure visible.)
pub open spec fn light_run(
    src: Seq<u8>,
    dst0: Seq<u8>,
    toe: int,
    control: int,
    literals: int,
    out: Seq<u8>,
) -> Option<Seq<u8>>
    decreases (if literals > control { literals - control } else { 0 }),
{
    if control + 3 > literals {
        if out.len() == toe {
            Some(out)
        } else {
            None
        }
    } else {
        match light_step(src, dst0, toe, control, literals, out) {
            None => None,
            Some((c, l, o)) => if c <= control || l > literals {
                None
            } else {
                light_run(src, dst0, toe, c, l, o)
            },
        }
    }
}

/// A heavy-format token at `control`: literal length, match length, distance
/// and the position of the next token; `None` when it is malformed.
pub open spec fn heavy_token(src: Seq<u8>, control: int, literals: int) -> Option<(int, int, int, int)> {
    if control + 4 > literals {
        None
    } else {
        let token = le32(src, control);
        let lit = token / 67108864;
        let code = (token / 1048576) % 64;
        let dis = token % 1048576 + HEAVY_MIN_DISTANCE;
        if code == 0 {
            None
        } else if lit == HEAVY_TOKEN_LIT_MAX {
            match ext_run(src, control + 4, literals, HEAVY_TOKEN_LIT_MAX as int) {
                Some((l, c)) => Some((l, heavy_len_of(code), dis, c)),
                None => None,
            }
        } else {
            Some((lit, heavy_len_of(code), dis, control + 4))
        }
    }
}

/// The output of one heavy token after `out`: its literals, then its whole
/// match copied forward.
pub open spec fn heavy_step(src: Seq<u8>, toe: int, control: int, literals: int, out: Seq<u8>) -> Option<
    (int, int, Seq<u8>),
> {
    match heavy_token(src, control, literals) {
        None => None,
        Some((lit, ml, dis, next)) => {
            let al = out.len() + lit;
            if lit > literals - next || al + ml > toe || dis > al {
                None
            } else {
                let lits = literals - lit;
                Some((next, lits, forward_copy(out + src.subrange(lits, literals), dis, ml)))
            }
        }
    }
}

/// Each heavy step moves the control position forward and the literal
/// position back.
pub proof fn lemma_heavy_step_moves(src: Seq<u8>, toe: int, control: int, literals: int, out: Seq<u8>)
    ensures
        heavy_step(src, toe, control, literals, out) matches Some((c, l, o)) ==> control < c && l
            <= literals,
{
    lemma_ext_run_bounds(src, control + 4, literals, HEAVY_TOKEN_LIT_MAX as int);
}

/// Decodes heavy tokens from `control` until the control stream meets the
/// literal stream; the output must then be exactly `toe` bytes long. (A step
/// always moves forward, `lemma_heavy_step_moves`.)
pub open spec fn heavy_run(src: Seq<u8>, toe: int, control: int, literals: int, out: Seq<u8>) -> Option<
    Seq<u8>,
>
    decreases literals - control,
{
    if control >= literals {
        if out.len() == toe {
            Some(out)
        } else {
            None
        }
    } else {
        match heavy_step(src, toe, control, literals, out) {
            None => None,
            Some((c, l, o)) => if c <= control || l > literals {
                None
            } else {
                heavy_run(src, toe, c, l, o)
            },
        }
    }
}

/// The decoded bytes of a light stream of `size` bytes.
pub open spec fn decode_light(src: Seq<u8>, dst0: Seq<u8>, size: int) -> Result<Seq<u8>, Error> {
    if size <= SMALL_LIM {
        if src.len() < HEADER_SIZE + size {
            Err(Error::InputTooShort)
        } else {
            Ok(src.subrange(8, 8 + size))
        }
    } else if src.len() < EXT_HEADER_SIZE {
        Err(Error::InputTooShort)
    } else {
        let sc = le64(src, 8);
        if sc > usize::MAX {
            Err(Error::SizeOverflow { size: sc as u64 })
        } else if sc < LITERAL_SUFFIX || sc > size {
            Err(Error::CorruptInput)
        } else if EXT_HEADER_SIZE + sc > usize::MAX {
            Err(Error::CorruptInput)
        } else if src.len() < EXT_HEADER_SIZE + sc {
            Err(Error::InputTooShort)
        } else {
            let ss = src.len() - sc;
            match light_run(src, dst0, size - sc, 16, ss, Seq::empty()) {
                None => Err(Error::CorruptInput),
                Some(out) => Ok(out + src.subrange(ss, src.len() as int)),
            }
        }
    }
}

/// The decoded bytes of a heavy stream of `size` bytes.
pub open spec fn decode_heavy(src: Seq<u8>, size: int) -> Result<Seq<u8>, Error> {
    if size <= HEAVY_SMALL_LIM {
        if src.len() < HEADER_SIZE + size {
            Err(Error::InputTooShort)
        } else {
            Ok(src.subrange(8, 8 + size))
        }
    } else if src.len() < EXT_HEADER_SIZE {
        Err(Error::InputTooShort)
    } else {
        let sc = le64(src, 8);
        if sc > usize::MAX {
            Err(Error::SizeOverflow { size: sc as u64 })
        } else if sc < HEAVY_LITERAL_SUFFIX || sc > size {
            Err(Error::CorruptInput)
        } else if src.len() < sc || src.len() - sc < EXT_HEADER_SIZE {
            Err(Error::CorruptInput)
        } else {
            let ns = src.len() - sc;
            match heavy_run(src, size - sc, 16, ns, Seq::empty()) {
                None => Err(Error::CorruptInput),
                Some(out) => Ok(out + src.subrange(ns, src.len() as int)),
            }
        }
    }
}

/// A light stream of `size` bytes passes every check made before its tokens
/// are decoded.
pub open spec fn light_reaches_tokens(src: Seq<u8>, size: int) -> bool {
    &&& size > SMALL_LIM
    &&& src.len() >= EXT_HEADER_SIZE
    &&& le64(src, 8) <= usize::MAX
    &&& LITERAL_SUFFIX <= le64(src, 8) <= size
    &&& EXT_HEADER_SIZE + le64(src, 8) <= usize::MAX
    &&& src.len() >= EXT_HEADER_SIZE + le64(src, 8)
}

/// A heavy stream of `size` bytes passes every check made before its tokens
/// are decoded.
pub open spec fn heavy_reaches_tokens(src: Seq<u8>, size: int) -> bool {
    &&& size > HEAVY_SMALL_LIM
    &&& src.len() >= EXT_HEADER_SIZE
    &&& le64(src, 8) <= usize::MAX
    &&& HEAVY_LITERAL_SUFFIX <= le64(src, 8) <= size
    &&& src.len() >= le64(src, 8)
    &&& src.len() - le64(src, 8) >= EXT_HEADER_SIZE
}

/// Decoding `src` into a buffer of `dst_len` bytes gets as far as its
/// tokens: the only stage at which an error can follow writes.
pub open spec fn reaches_tokens(src: Seq<u8>, dst_len: int) -> bool {
    match spec_header_fields(src) {
        Err(_) => false,
        Ok((size, flags)) => {
            &&& size > 0
            &&& dst_len >= size
            &&& if flags % 2 == 1 {
                heavy_reaches_tokens(src, size as int)
            } else {
                light_reaches_tokens(src, size as int)
            }
        },
    }
}

/// The decoded bytes of a compressed stream, decoded into a buffer whose
/// contents before decoding are `dst0`; or the error the decoder reports.
pub open spec fn decode_spec(src: Seq<u8>, dst0: Seq<u8>) -> Result<Seq<u8>, Error> {
    match spec_header_fields(src) {
        Err(e) => Err(e),
        Ok((size, flags)) => {
            if size == 0 {
                Ok(Seq::empty())
            } else if dst0.len() < size {
                Err(Error::OutputTooSmall { need: size, have: dst0.len() as usize })
            } else if flags % 2 == 1 {
                decode_heavy(src, size as int)
            } else {
                decode_light(src, dst0, size as int)
            }
        },
    }
}

/// A completed light run has exactly `toe` bytes.
pub proof fn lemma_light_run_len(
    src: Seq<u8>,
    dst0: Seq<u8>,
    toe: int,
    control: int,
    literals: int,
    out: Seq<u8>,
)
    ensures
        light_run(src, dst0, toe, control, literals, out) matches Some(o) ==> o.len() == toe,
    decreases (if literals > control { literals - control } else { 0 }),
{
    if control + 3 <= literals {
        match light_step(src, dst0, toe, control, literals, out) {
            None => {},
            Some((c, l, o)) => {
                if c > control && l <= literals {
                    lemma_light_run_len(src, dst0, toe, c, l, o);
                }
            },
        }
    }
}

/// A completed heavy run has exactly `toe` bytes.
pub proof fn lemma_heavy_run_len(src: Seq<u8>, toe: int, control: int, literals: int, out: Seq<u8>)
    ensures
        heavy_run(src, toe, control, literals, out) matches Some(o) ==> o.len() == toe,
    decreases literals - control,
{
    if control < literals {
        match heavy_step(src, toe, control, literals, out) {
            None => {},
            Some((c, l, o)) => {
                if c > control && l <= literals {
                    lemma_heavy_run_len(src, toe, c, l, o);
                }
            },
        }
    }
}

/// A successfully decoded stream has the size its header declares.
pub proof fn lemma_decode_len(src: Seq<u8>, dst0: Seq<u8>)
    ensures
        decode_spec(src, dst0) matches Ok(out) ==> spec_header_fields(src) matches Ok((size, f))
            && out.len() == size,
{
    if src.len() >= EXT_HEADER_SIZE {
        let sc = le64(src, 8);
        let size = header_size(src);
        lemma_light_run_len(src, dst0, size - sc, 16, src.len() - sc, Seq::empty());
        lemma_heavy_run_len(src, size - sc, 16, src.len() - sc, Seq::empty());
    }
}

/// A heavy stream that declares at most 64 bytes holds them raw after its
/// header: decoding it into a buffer that can hold them gives the bytes after
/// the header, or `InputTooShort` when the stream is shorter than that.
pub proof fn law_heavy_small_raw(src: Seq<u8>, dst0: Seq<u8>)
    requires
        spec_header_fields(src) matches Ok((size, flags)) && 1 <= size <= HEAVY_SMALL_LIM
            && flags % 2 == 1 && dst0.len() >= size,
    ensures
        decode_spec(src, dst0) == (if src.len() >= HEADER_SIZE + header_size(src) {
            Ok::<Seq<u8>, Error>(src.subrange(8, 8 + header_size(src)))
        } else {
            Err::<Seq<u8>, Error>(Error::InputTooShort)
        }),
{
}

/// A heavy stream that declares more than 64 bytes, decoded into a buffer
/// that can hold them, is too short when it holds less than its two header
/// words; past them, a literal suffix count under 64, over the declared
/// size, or longer than what follows the header words makes it corrupt.
pub proof fn law_heavy_suffix_checks(src: Seq<u8>, dst0: Seq<u8>)
    requires
        spec_header_fields(src) matches Ok((size, flags)) && size > HEAVY_SMALL_LIM && flags % 2 == 1
            && dst0.len() >= size,
    ensures
        src.len() < EXT_HEADER_SIZE ==> decode_spec(src, dst0) == Err::<Seq<u8>, Error>(
            Error::InputTooShort,
        ),
        src.len() >= EXT_HEADER_SIZE && le64(src, 8) <= usize::MAX && (le64(src, 8) < HEAVY_LITERAL_SUFFIX
            || le64(src, 8) > header_size(src) || src.len() < EXT_HEADER_SIZE + le64(src, 8))
            ==> decode_spec(src, dst0) == Err::<Seq<u8>, Error>(Error::CorruptInput),
{
}

} // verus!
