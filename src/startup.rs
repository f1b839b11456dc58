//! The messages of the connection handshake: the tag-less startup message,
//! the authentication challenge and the password response.
use vstd::prelude::*;

use crate::buffer::{buf_bytes, buffer_advance, buffer_put, buffer_slice};
use crate::codec::{buffer_decoded_as, decoded_as, CodecError};
use crate::wire::{
    be16_at, be16_bytes, be32_at, be32_bytes, cstr_bytes, cstr_text, find_nul, get_u16, get_u32, lemma_be16_round_trip, lemma_be32_round_trip,
    lemma_nul_index_cstr, lemma_text_round_trip, nul_index, put_cstr, put_u16, put_u32, string_bytes, text_at,
    text_bytes, text_of, name_lt, bytes_less, lemma_name_total, lemma_bytes_lt_irreflexive,
    lemma_bytes_lt_asymmetric, lemma_bytes_lt_transitive,
};

verus! {

/// Largest value a length field may hold (it is a signed 32-bit integer).
pub const MAX_LENGTH: u32 = 2147483647;

/// Largest startup frame accepted. A tagged message read as a startup
/// message has its tag in the high byte of the length, so it exceeds this.
pub const MAX_STARTUP_LENGTH: u32 = 10000;

/// Authentication request family, sent by the backend.
#[derive(PartialEq, Eq, Debug, Clone, Copy)]
pub enum Authentication {
    /// Sub-code 0.
    AuthOk,
    /// Sub-code 3.
    CleartextPassword,
    /// Sub-code 2.
    KerberosV5,
    /// Sub-code 5, with the four bytes of salt for the digest.
    MD5Password((u8, u8, u8, u8)),
}

impl View for Authentication {
    type V = Authentication;

    open spec fn view(&self) -> Authentication {
        *self
    }
}

/// Type tag of the authentication messages.
pub const AUTHENTICATION_TAG: u8 = 82;

/// Type tag of the password message.
pub const PASSWORD_TAG: u8 = 112;

impl Authentication {
    /// The sub-code on the wire.
    pub open spec fn spec_code(self) -> u32 {
        match self {
            Authentication::AuthOk => 0,
            Authentication::CleartextPassword => 3,
            Authentication::KerberosV5 => 2,
            Authentication::MD5Password(_) => 5,
        }
    }

    /// The value of the length field.
    pub open spec fn spec_length(self) -> u32 {
        match self {
            Authentication::MD5Password(_) => 12,
            _ => 8,
        }
    }

    /// The bytes after the sub-code.
    pub open spec fn spec_extra(self) -> Seq<u8> {
        match self {
            Authentication::MD5Password((a, b, c, d)) => seq![a, b, c, d],
            _ => Seq::empty(),
        }
    }

    /// The whole frame: tag, length, sub-code, and the salt where there is one.
    pub open spec fn wire(self) -> Seq<u8> {
        seq![AUTHENTICATION_TAG] + be32_bytes(self.spec_length()) + be32_bytes(self.spec_code())
            + self.spec_extra()
    }

    /// What decoding `b` comes to: the message and the count of bytes it
    /// takes, `None` while the frame is incomplete, or the error.
    pub open spec fn decode_spec(b: Seq<u8>) -> Result<Option<(Authentication, int)>, CodecError> {
        if b.len() == 0 {
            Ok(None)
        } else if b[0] != AUTHENTICATION_TAG {
            Err(CodecError::UnexpectedTag)
        } else if b.len() < 5 {
            Ok(None)
        } else if be32_at(b, 1) != 8 && be32_at(b, 1) != 12 {
            Err(CodecError::InvalidLength)
        } else if b.len() < be32_at(b, 1) + 1 {
            Ok(None)
        } else {
            let n = be32_at(b, 1);
            let code = be32_at(b, 5);
            if code == 0 || code == 2 || code == 3 {
                if n != 8 {
                    Err(CodecError::InvalidLength)
                } else if code == 0 {
                    Ok(Some((Authentication::AuthOk, 9)))
                } else if code == 2 {
                    Ok(Some((Authentication::KerberosV5, 9)))
                } else {
                    Ok(Some((Authentication::CleartextPassword, 9)))
                }
            } else if code == 5 {
                if n != 12 {
                    Err(CodecError::InvalidLength)
                } else {
                    Ok(Some((Authentication::MD5Password((b[9], b[10], b[11], b[12])), 13)))
                }
            } else {
                Err(CodecError::UnknownAuthentication)
            }
        }
    }

    /// The type tag, always `R`.
    pub fn message_type(&self) -> (r: Option<u8>)
        ensures
            r == Some(AUTHENTICATION_TAG),
    {
        Some(AUTHENTICATION_TAG)
    }

    /// The value of the length field: the bytes written after the tag.
    pub fn message_length(&self) -> (r: i32)
        ensures
            r as int == self.spec_length(),
            r as int == self.wire().len() - 1,
    {
        match self {
            Authentication::MD5Password(_) => 12,
            _ => 8,
        }
    }

    fn code(&self) -> (r: u32)
        ensures
            r == self.spec_code(),
    {
        match self {
            Authentication::AuthOk => 0,
            Authentication::CleartextPassword => 3,
            Authentication::KerberosV5 => 2,
            Authentication::MD5Password(_) => 5,
        }
    }

    /// Appends the frame to `out`.
    pub fn write_to(&self, out: &mut Vec<u8>)
        ensures
            final(out)@ == old(out)@ + self.wire(),
    {
        out.push(AUTHENTICATION_TAG);
        put_u32(out, self.message_length() as u32);
        put_u32(out, self.code());
        match self {
            Authentication::MD5Password((a, b, c, d)) => {
                out.push(*a);
                out.push(*b);
                out.push(*c);
                out.push(*d);
            },
            _ => {},
        }
        assert(final(out)@ =~= old(out)@ + self.wire());
    }

    /// Writes the frame at the back of `buf`.
    pub fn encode(&self, buf: &mut bytes::BytesMut)
        ensures
            buf_bytes(*final(buf)) == buf_bytes(*old(buf)) + self.wire(),
    {
        let mut out: Vec<u8> = Vec::new();
        self.write_to(&mut out);
        assert(out@ =~= self.wire());
        buffer_put(buf, out.as_slice());
    }

    /// Reads one frame from the front of `b`.
    pub fn decode_from(b: &[u8]) -> (r: Result<Option<(Authentication, usize)>, CodecError>)
        ensures
            decoded_as(r, Self::decode_spec(b@)),
    {
        if b.len() == 0 {
            return Ok(None);
        }
        if b[0] != AUTHENTICATION_TAG {
            return Err(CodecError::UnexpectedTag);
        }
        if b.len() < 5 {
            return Ok(None);
        }
        let n = get_u32(b, 1);
        if n != 8 && n != 12 {
            return Err(CodecError::InvalidLength);
        }
        if b.len() < n as usize + 1 {
            return Ok(None);
        }
        let code = get_u32(b, 5);
        if code == 0 || code == 2 || code == 3 {
            if n != 8 {
                Err(CodecError::InvalidLength)
            } else if code == 0 {
                Ok(Some((Authentication::AuthOk, 9)))
            } else if code == 2 {
                Ok(Some((Authentication::KerberosV5, 9)))
            } else {
                Ok(Some((Authentication::CleartextPassword, 9)))
            }
        } else if code == 5 {
            if n != 12 {
                Err(CodecError::InvalidLength)
            } else {
                Ok(Some((Authentication::MD5Password((b[9], b[10], b[11], b[12])), 13)))
            }
        } else {
            Err(CodecError::UnknownAuthentication)
        }
    }

    /// Reads one frame from the front of `buf`, and on success drops exactly
    /// its bytes from the buffer.
    pub fn decode(buf: &mut bytes::BytesMut) -> (r: Result<Option<Authentication>, CodecError>)
        ensures
            buffer_decoded_as(r, Self::decode_spec(buf_bytes(*old(buf))), buf_bytes(*old(buf)),
                buf_bytes(*final(buf))),
    {
        let res = Self::decode_from(buffer_slice(buf));
        match res {
            Ok(Some((m, n))) => {
                buffer_advance(buf, n);
                Ok(Some(m))
            },
            Ok(None) => Ok(None),
            Err(e) => Err(e),
        }
    }
}

/// Decoding the frame of an authentication message, whatever follows it,
/// gives the message back and takes exactly the frame's bytes.
pub proof fn lemma_authentication_round_trip(m: Authentication, rest: Seq<u8>)
    ensures
        Authentication::decode_spec(m.wire() + rest) == Ok::<
            Option<(Authentication, int)>,
            CodecError,
        >(Some((m, m.wire().len() as int))),
{
    let b = m.wire() + rest;
    lemma_be32_round_trip(m.spec_length());
    lemma_be32_round_trip(m.spec_code());
    assert(b[1] == be32_bytes(m.spec_length())[0]);
    assert(b[2] == be32_bytes(m.spec_length())[1]);
    assert(b[3] == be32_bytes(m.spec_length())[2]);
    assert(b[4] == be32_bytes(m.spec_length())[3]);
    assert(b[5] == be32_bytes(m.spec_code())[0]);
    assert(b[6] == be32_bytes(m.spec_code())[1]);
    assert(b[7] == be32_bytes(m.spec_code())[2]);
    assert(b[8] == be32_bytes(m.spec_code())[3]);
    match m {
        Authentication::MD5Password((x, y, z, w)) => {
            assert(b[9] == x && b[10] == y && b[11] == z && b[12] == w);
        },
        _ => {},
    }
}

/// Every proper prefix of the frame of an authentication message decodes
/// as "not enough data yet".
pub proof fn lemma_authentication_prefix(m: Authentication, k: int)
    requires
        0 <= k < m.wire().len(),
    ensures
        Authentication::decode_spec(m.wire().take(k)) == Ok::<
            Option<(Authentication, int)>,
            CodecError,
        >(None),
{
    let b = m.wire().take(k);
    lemma_be32_round_trip(m.spec_length());
    if k >= 5 {
        assert(b[1] == be32_bytes(m.spec_length())[0]);
        assert(b[2] == be32_bytes(m.spec_length())[1]);
        assert(b[3] == be32_bytes(m.spec_length())[2]);
        assert(b[4] == be32_bytes(m.spec_length())[3]);
    }
    if k >= 1 {
        assert(b[0] == AUTHENTICATION_TAG);
    }
}

/// Password message, sent by the frontend: one credential string.
pub struct Password {
    password: String,
}

impl View for Password {
    type V = Seq<char>;

    closed spec fn view(&self) -> Seq<char> {
        self.password@
    }
}

/// The whole frame of a password message holding `p`: tag, length,
/// zero-terminated text.
pub open spec fn password_wire(p: Seq<char>) -> Seq<u8> {
    seq![PASSWORD_TAG] + be32_bytes((5 + text_bytes(p).len()) as u32) + cstr_bytes(p)
}

/// A credential that a password message can carry: no zero byte, and a
/// frame whose length fits the length field.
pub open spec fn password_ok(p: Seq<char>) -> bool {
    cstr_text(p) && 5 + text_bytes(p).len() <= MAX_LENGTH
}

impl Password {
    pub fn new(password: String) -> (r: Password)
        ensures
            r@ == password@,
    {
        Password { password }
    }

    /// The credential text.
    pub fn password(&self) -> (r: &String)
        ensures
            r@ == self@,
    {
        &self.password
    }

    /// What decoding `b` comes to: the credential and the count of bytes the
    /// frame takes, `None` while the frame is incomplete, or the error.
    pub open spec fn decode_spec(b: Seq<u8>) -> Result<Option<(Seq<char>, int)>, CodecError> {
        if b.len() == 0 {
            Ok(None)
        } else if b[0] != PASSWORD_TAG {
            Err(CodecError::UnexpectedTag)
        } else if b.len() < 5 {
            Ok(None)
        } else if be32_at(b, 1) < 5 || be32_at(b, 1) > MAX_LENGTH {
            Err(CodecError::InvalidLength)
        } else if b.len() < be32_at(b, 1) + 1 {
            Ok(None)
        } else {
            let end = be32_at(b, 1) + 1;
            let body = b.subrange(5, end);
            if nul_index(body) != Some(body.len() - 1) {
                Err(CodecError::MalformedBody)
            } else {
                match text_of(body.drop_last()) {
                    Some(t) => Ok(Some((t, end))),
                    None => Err(CodecError::MalformedBody),
                }
            }
        }
    }

    /// The type tag, always `p`.
    pub fn message_type(&self) -> (r: Option<u8>)
        ensures
            r == Some(PASSWORD_TAG),
    {
        Some(PASSWORD_TAG)
    }

    /// The value of the length field: the bytes written after the tag.
    pub fn message_length(&self) -> (r: i32)
        requires
            password_ok(self@),
        ensures
            r as int == 5 + text_bytes(self@).len(),
            r as int == password_wire(self@).len() - 1,
    {
        let n = string_bytes(&self.password).len();
        (5 + n) as i32
    }

    /// Appends the frame to `out`.
    pub fn write_to(&self, out: &mut Vec<u8>)
        requires
            password_ok(self@),
        ensures
            final(out)@ == old(out)@ + password_wire(self@),
    {
        out.push(PASSWORD_TAG);
        put_u32(out, self.message_length() as u32);
        let s = string_bytes(&self.password);
        let mut i: usize = 0;
        let ghost start = out@;
        while i < s.len()
            invariant
                0 <= i <= s@.len(),
                out@ == start + s@.take(i as int),
            decreases s@.len() - i,
        {
            out.push(s[i]);
            i = i + 1;
            assert(out@ =~= start + s@.take(i as int));
        }
        out.push(0u8);
        assert(s@.take(i as int) =~= s@);
        assert(final(out)@ =~= old(out)@ + password_wire(self@));
    }

    /// Writes the frame at the back of `buf`.
    pub fn encode(&self, buf: &mut bytes::BytesMut)
        requires
            password_ok(self@),
        ensures
            buf_bytes(*final(buf)) == buf_bytes(*old(buf)) + password_wire(self@),
    {
        let mut out: Vec<u8> = Vec::new();
        self.write_to(&mut out);
        assert(out@ =~= password_wire(self@));
        buffer_put(buf, out.as_slice());
    }

    /// Reads one frame from the front of `b`.
    pub fn decode_from(b: &[u8]) -> (r: Result<Option<(Password, usize)>, CodecError>)
        ensures
            decoded_as(r, Self::decode_spec(b@)),
    {
        if b.len() == 0 {
            return Ok(None);
        }
        if b[0] != PASSWORD_TAG {
            return Err(CodecError::UnexpectedTag);
        }
        if b.len() < 5 {
            return Ok(None);
        }
        let n = get_u32(b, 1);
        if n < 5 || n > MAX_LENGTH {
            return Err(CodecError::InvalidLength);
        }
        if b.len() < n as usize + 1 {
            return Ok(None);
        }
        let end = n as usize + 1;
        let ghost body = b@.subrange(5, end as int);
        match find_nul(b, 5, end) {
            Some(k) => {
                if k + 1 != end {
                    return Err(CodecError::MalformedBody);
                }
                assert(body.drop_last() =~= b@.subrange(5, k as int));
                match text_at(b, 5, k) {
                    Some(t) => Ok(Some((Password { password: t }, end))),
                    None => Err(CodecError::MalformedBody),
                }
            },
            None => Err(CodecError::MalformedBody),
        }
    }

    /// Reads one frame from the front of `buf`, and on success drops exactly
    /// its bytes from the buffer.
    pub fn decode(buf: &mut bytes::BytesMut) -> (r: Result<Option<Password>, CodecError>)
        ensures
            buffer_decoded_as(r, Self::decode_spec(buf_bytes(*old(buf))), buf_bytes(*old(buf)),
                buf_bytes(*final(buf))),
    {
        let res = Self::decode_from(buffer_slice(buf));
        match res {
            Ok(Some((m, n))) => {
                buffer_advance(buf, n);
                Ok(Some(m))
            },
            Ok(None) => Ok(None),
            Err(e) => Err(e),
        }
    }
}

/// Decoding the frame of a password message, whatever follows it, gives the
/// credential back and takes exactly the frame's bytes.
pub proof fn lemma_password_round_trip(p: Seq<char>, rest: Seq<u8>)
    requires
        password_ok(p),
    ensures
        Password::decode_spec(password_wire(p) + rest) == Ok::<
            Option<(Seq<char>, int)>,
            CodecError,
        >(Some((p, password_wire(p).len() as int))),
{
    let w = password_wire(p);
    let b = w + rest;
    let n = (5 + text_bytes(p).len()) as u32;
    lemma_be32_round_trip(n);
    assert(b[1] == be32_bytes(n)[0]);
    assert(b[2] == be32_bytes(n)[1]);
    assert(b[3] == be32_bytes(n)[2]);
    assert(b[4] == be32_bytes(n)[3]);
    let body = b.subrange(5, n + 1);
    assert(body =~= cstr_bytes(p) + Seq::<u8>::empty());
    lemma_nul_index_cstr(p, Seq::<u8>::empty());
    assert(body.drop_last() =~= text_bytes(p));
    lemma_text_round_trip(p);
}

/// Every proper prefix of the frame of a password message decodes as "not
/// enough data yet".
pub proof fn lemma_password_prefix(p: Seq<char>, k: int)
    requires
        password_ok(p),
        0 <= k < password_wire(p).len(),
    ensures
        Password::decode_spec(password_wire(p).take(k)) == Ok::<Option<(Seq<char>, int)>, CodecError>(
            None,
        ),
{
    let b = password_wire(p).take(k);
    let n = (5 + text_bytes(p).len()) as u32;
    lemma_be32_round_trip(n);
    if k >= 5 {
        assert(b[1] == be32_bytes(n)[0]);
        assert(b[2] == be32_bytes(n)[1]);
        assert(b[3] == be32_bytes(n)[2]);
        assert(b[4] == be32_bytes(n)[3]);
    }
    if k >= 1 {
        assert(b[0] == PASSWORD_TAG);
    }
}

/// A startup message seen as its major version, minor version and
/// parameter pairs in wire order.
pub type StartupView = (u16, u16, Seq<(Seq<char>, Seq<char>)>);

/// The texts of a list of parameter pairs.
pub open spec fn params_view(v: Seq<(String, String)>) -> Seq<(Seq<char>, Seq<char>)> {
    v.map_values(|p: (String, String)| (p.0@, p.1@))
}

/// One parameter pair on the wire: two zero-terminated strings.
pub open spec fn pair_bytes(p: (Seq<char>, Seq<char>)) -> Seq<u8> {
    cstr_bytes(p.0) + cstr_bytes(p.1)
}

/// The parameter pairs on the wire, in order (without the final zero byte).
pub open spec fn params_bytes(ps: Seq<(Seq<char>, Seq<char>)>) -> Seq<u8>
    decreases ps.len(),
{
    if ps.len() == 0 {
        Seq::empty()
    } else {
        params_bytes(ps.drop_last()) + pair_bytes(ps.last())
    }
}

/// Parameter pairs that can be written: each name is non-empty (an empty
/// name would end the list), and no text holds a zero byte.
pub open spec fn params_ok(ps: Seq<(Seq<char>, Seq<char>)>) -> bool {
    forall|i: int|
        0 <= i < ps.len() ==> text_bytes(#[trigger] ps[i].0).len() > 0 && cstr_text(ps[i].0)
            && cstr_text(ps[i].1)
}

/// The value of the length field of a startup message: the length field,
/// the two version numbers, the pairs and the final zero byte.
pub open spec fn startup_length(m: StartupView) -> int {
    9 + params_bytes(m.2).len() as int
}

/// A startup message that can be written.
pub open spec fn startup_ok(m: StartupView) -> bool {
    params_ok(m.2) && params_sorted(m.2) && startup_length(m) <= MAX_STARTUP_LENGTH
}

/// Names strictly ascending, hence each name once.
pub open spec fn params_sorted(ps: Seq<(Seq<char>, Seq<char>)>) -> bool {
    forall|i: int, j: int| 0 <= i < j < ps.len() ==> #[trigger] name_lt(ps[i].0, ps[j].0)
}

/// The pairs `ps` with `key` set to `value`: in place where `key` is
/// present, else at the position that keeps names ascending.
#[verifier::opaque]
pub open spec fn sorted_insert(
    ps: Seq<(Seq<char>, Seq<char>)>,
    key: Seq<char>,
    value: Seq<char>,
) -> Seq<(Seq<char>, Seq<char>)>
    decreases ps.len(),
{
    if ps.len() == 0 {
        seq![(key, value)]
    } else if ps[0].0 == key {
        seq![(key, value)] + ps.drop_first()
    } else if name_lt(key, ps[0].0) {
        seq![(key, value)] + ps
    } else {
        seq![ps[0]] + sorted_insert(ps.drop_first(), key, value)
    }
}

/// The pairs after setting each pair of `ps` in turn, starting from none:
/// a later value for a name replaces an earlier one.
#[verifier::opaque]
pub open spec fn insert_all(ps: Seq<(Seq<char>, Seq<char>)>) -> Seq<(Seq<char>, Seq<char>)>
    decreases ps.len(),
{
    if ps.len() == 0 {
        Seq::empty()
    } else {
        sorted_insert(insert_all(ps.drop_last()), ps.last().0, ps.last().1)
    }
}

/// The whole frame of a startup message; it has no type tag.
pub open spec fn startup_wire(m: StartupView) -> Seq<u8> {
    be32_bytes(startup_length(m) as u32) + be16_bytes(m.0) + be16_bytes(m.1) + params_bytes(m.2)
        + seq![0u8]
}

/// The parameter pairs that the bytes `b` of a startup body (after the
/// versions) hold, up to and including the final zero byte, which must be
/// the last byte.
#[verifier::opaque]
pub open spec fn parse_params(b: Seq<u8>) -> Option<Seq<(Seq<char>, Seq<char>)>>
    decreases b.len(),
{
    if b.len() == 0 {
        None
    } else if b[0] == 0 {
        if b.len() == 1 {
            Some(Seq::empty())
        } else {
            None
        }
    } else {
        match nul_index(b) {
            None => None,
            Some(k) => if !(0 <= k < b.len()) {
                None
            } else {
                let rest = b.skip(k + 1);
                match nul_index(rest) {
                    None => None,
                    Some(j) => if !(0 <= j < rest.len()) {
                        None
                    } else {
                        match (text_of(b.take(k)), text_of(rest.take(j))) {
                            (Some(key), Some(val)) => match parse_params(rest.skip(j + 1)) {
                                Some(ps) => Some(seq![(key, val)] + ps),
                                None => None,
                            },
                            _ => None,
                        }
                    },
                }
            },
        }
    }
}

/// Startup message, the first message a frontend sends: protocol version
/// and connection parameters. Each parameter is a pair of zero-terminated
/// strings; the list ends with one more zero byte.
pub struct Startup {
    protocol_number_major: u16,
    protocol_number_minor: u16,
    parameters: Vec<(String, String)>,
}

impl View for Startup {
    type V = StartupView;

    closed spec fn view(&self) -> StartupView {
        (self.protocol_number_major, self.protocol_number_minor, params_view(self.parameters@))
    }
}

impl Startup {
    /// What decoding `b` comes to: the message and the count of bytes the
    /// frame takes, `None` while the frame is incomplete, or the error.
    pub open spec fn decode_spec(b: Seq<u8>) -> Result<Option<(StartupView, int)>, CodecError> {
        if b.len() < 4 {
            Ok(None)
        } else if be32_at(b, 0) < 9 || be32_at(b, 0) > MAX_STARTUP_LENGTH {
            Err(CodecError::InvalidLength)
        } else if b.len() < be32_at(b, 0) {
            Ok(None)
        } else {
            let n = be32_at(b, 0) as int;
            match parse_params(b.subrange(8, n)) {
                Some(ps) => Ok(Some(((be16_at(b, 4), be16_at(b, 6), insert_all(ps)), n))),
                None => Err(CodecError::MalformedBody),
            }
        }
    }

    /// The startup message has no type tag.
    pub fn message_type(&self) -> (r: Option<u8>)
        ensures
            r is None,
    {
        None
    }

    /// The value of the length field: every byte of the frame.
    pub fn message_length(&self) -> (r: i32)
        requires
            startup_ok(self@),
        ensures
            r as int == startup_length(self@),
            r as int == startup_wire(self@).len(),
    {
        let ghost ps = self@.2;
        let mut total: usize = 9;
        let mut i: usize = 0;
        while i < self.parameters.len()
            invariant
                0 <= i <= self.parameters@.len(),
                ps == params_view(self.parameters@),
                params_ok(ps),
                9 + params_bytes(ps).len() <= MAX_STARTUP_LENGTH,
                total == 9 + params_bytes(ps.take(i as int)).len(),
            decreases self.parameters@.len() - i,
        {
            proof {
                assert(ps.take(i + 1).drop_last() =~= ps.take(i as int));
                lemma_params_bytes_take(ps, i + 1);
            }
            let k = string_bytes(&self.parameters[i].0).len();
            let v = string_bytes(&self.parameters[i].1).len();
            total = total + k + v + 2;
            i = i + 1;
        }
        assert(ps.take(i as int) =~= ps);
        total as i32
    }

    /// Appends the frame to `out`.
    pub fn write_to(&self, out: &mut Vec<u8>)
        requires
            startup_ok(self@),
        ensures
            final(out)@ == old(out)@ + startup_wire(self@),
    {
        let ghost ps = self@.2;
        let ghost start = out@;
        put_u32(out, self.message_length() as u32);
        put_u16(out, self.protocol_number_major);
        put_u16(out, self.protocol_number_minor);
        let ghost head = out@;
        let mut i: usize = 0;
        while i < self.parameters.len()
            invariant
                0 <= i <= self.parameters@.len(),
                ps == params_view(self.parameters@),
                out@ == head + params_bytes(ps.take(i as int)),
            decreases self.parameters@.len() - i,
        {
            assert(ps.take(i + 1).drop_last() =~= ps.take(i as int));
            put_cstr(out, &self.parameters[i].0);
            put_cstr(out, &self.parameters[i].1);
            i = i + 1;
            assert(out@ =~= head + params_bytes(ps.take(i as int)));
        }
        out.push(0u8);
        assert(ps.take(i as int) =~= ps);
        assert(final(out)@ =~= old(out)@ + startup_wire(self@));
    }

    /// Writes the frame at the back of `buf`.
    pub fn encode(&self, buf: &mut bytes::BytesMut)
        requires
            startup_ok(self@),
        ensures
            buf_bytes(*final(buf)) == buf_bytes(*old(buf)) + startup_wire(self@),
    {
        let mut out: Vec<u8> = Vec::new();
        self.write_to(&mut out);
        assert(out@ =~= startup_wire(self@));
        buffer_put(buf, out.as_slice());
    }

    /// Reads one frame from the front of `b`.
    pub fn decode_from(b: &[u8]) -> (r: Result<Option<(Startup, usize)>, CodecError>)
        ensures
            decoded_as(r, Self::decode_spec(b@)),
            r matches Ok(Some((m, _))) ==> params_sorted(m@.2),
    {
        if b.len() < 4 {
            return Ok(None);
        }
        let n = get_u32(b, 0);
        if n < 9 || n > MAX_STARTUP_LENGTH {
            return Err(CodecError::InvalidLength);
        }
        if b.len() < n as usize {
            return Ok(None);
        }
        let end = n as usize;
        let major = get_u16(b, 4);
        let minor = get_u16(b, 6);
        let ghost whole = b@.subrange(8, end as int);
        let mut params: Vec<(String, String)> = Vec::new();
        let mut pos: usize = 8;
        let ghost mut seen: Seq<(Seq<char>, Seq<char>)> = Seq::empty();
        proof {
            reveal(insert_all);
            assert(params_view(params@) =~= insert_all(seen));
            match parse_params(whole) {
                Some(ps) => {
                    assert(seen + ps =~= ps);
                },
                None => {},
            }
        }
        loop
            invariant
                8 <= pos <= end <= b@.len(),
                9 <= end <= MAX_STARTUP_LENGTH,
                end == be32_at(b@, 0),
                params_view(params@) == insert_all(seen),
                params_sorted(params_view(params@)),
                major == be16_at(b@, 4),
                minor == be16_at(b@, 6),
                whole == b@.subrange(8, end as int),
                match parse_params(b@.subrange(pos as int, end as int)) {
                    Some(ps) => parse_params(whole) == Some(seen + ps),
                    None => parse_params(whole) is None,
                },
            decreases end - pos,
        {
            let ghost s = b@.subrange(pos as int, end as int);
            proof {
                reveal(parse_params);
            }
            if pos >= end {
                assert(parse_params(s) is None);
                return Err(CodecError::MalformedBody);
            }
            assert(s[0] == b@[pos as int]);
            if b[pos] == 0 {
                if pos + 1 == end {
                    assert(seen + Seq::<(Seq<char>, Seq<char>)>::empty() =~= seen);
                    let m = Startup {
                        protocol_number_major: major,
                        protocol_number_minor: minor,
                        parameters: params,
                    };
                    return Ok(Some((m, end)));
                }
                assert(parse_params(s) is None);
                return Err(CodecError::MalformedBody);
            }
            let k = match find_nul(b, pos, end) {
                Some(k) => k,
                None => {
                    assert(parse_params(s) is None);
                    return Err(CodecError::MalformedBody);
                },
            };
            let ghost rest = s.skip(k - pos + 1);
            assert(rest =~= b@.subrange(k + 1, end as int));
            assert(s.take(k - pos) =~= b@.subrange(pos as int, k as int));
            let j = match find_nul(b, k + 1, end) {
                Some(j) => j,
                None => {
                    return Err(CodecError::MalformedBody);
                },
            };
            assert(rest.take(j - k - 1) =~= b@.subrange(k + 1, j as int));
            assert(rest.skip(j - k) =~= b@.subrange(j + 1, end as int));
            let key = match text_at(b, pos, k) {
                Some(t) => t,
                None => {
                    return Err(CodecError::MalformedBody);
                },
            };
            let val = match text_at(b, k + 1, j) {
                Some(t) => t,
                None => {
                    return Err(CodecError::MalformedBody);
                },
            };
            let ghost before = seen;
            let ghost kv = (key@, val@);
            insert_sorted(&mut params, key, val);
            proof {
                seen = seen.push(kv);
                assert(seen.drop_last() =~= before);
                reveal(insert_all);
                match parse_params(b@.subrange(j + 1, end as int)) {
                    Some(ps) => {
                        assert(before + (seq![kv] + ps) =~= seen + ps);
                    },
                    None => {},
                }
            }
            pos = j + 1;
        }
    }

    /// Reads one frame from the front of `buf`, and on success drops exactly
    /// its bytes from the buffer.
    pub fn decode(buf: &mut bytes::BytesMut) -> (r: Result<Option<Startup>, CodecError>)
        ensures
            buffer_decoded_as(r, Self::decode_spec(buf_bytes(*old(buf))), buf_bytes(*old(buf)),
                buf_bytes(*final(buf))),
            r matches Ok(Some(m)) ==> params_sorted(m@.2),
    {
        let res = Self::decode_from(buffer_slice(buf));
        match res {
            Ok(Some((m, n))) => {
                buffer_advance(buf, n);
                Ok(Some(m))
            },
            Ok(None) => Ok(None),
            Err(e) => Err(e),
        }
    }
}

/// The bytes of the first `i` pairs never outnumber those of all pairs.
pub proof fn lemma_params_bytes_take(ps: Seq<(Seq<char>, Seq<char>)>, i: int)
    requires
        0 <= i <= ps.len(),
    ensures
        params_bytes(ps.take(i)).len() <= params_bytes(ps).len(),
    decreases ps.len() - i,
{
    if i < ps.len() {
        lemma_params_bytes_take(ps, i + 1);
        assert(ps.take(i + 1).drop_last() =~= ps.take(i));
    } else {
        assert(ps.take(i) =~= ps);
    }
}

/// The bytes of a list of pairs are those of its first pair, then those of
/// the others.
pub proof fn lemma_params_bytes_front(ps: Seq<(Seq<char>, Seq<char>)>)
    requires
        ps.len() > 0,
    ensures
        params_bytes(ps) == pair_bytes(ps[0]) + params_bytes(ps.drop_first()),
    decreases ps.len(),
{
    if ps.len() == 1 {
        assert(ps.drop_last() =~= Seq::<(Seq<char>, Seq<char>)>::empty());
        assert(ps.drop_first() =~= Seq::<(Seq<char>, Seq<char>)>::empty());
        assert(params_bytes(ps) =~= pair_bytes(ps[0]) + params_bytes(ps.drop_first()));
    } else {
        let init = ps.drop_last();
        lemma_params_bytes_front(init);
        assert(ps.drop_first().drop_last() =~= init.drop_first());
        assert(ps.drop_first().last() == ps.last());
        assert(params_bytes(ps) =~= pair_bytes(ps[0]) + params_bytes(ps.drop_first()));
    }
}

/// Parsing the written pairs and the final zero byte gives the pairs back.
#[verifier::rlimit(30)]
pub proof fn lemma_parse_params(ps: Seq<(Seq<char>, Seq<char>)>)
    requires
        params_ok(ps),
    ensures
        parse_params(params_bytes(ps) + seq![0u8]) == Some(ps),
    decreases ps.len(),
{
    let b = params_bytes(ps) + seq![0u8];
    reveal(parse_params);
    if ps.len() == 0 {
        assert(b =~= seq![0u8]);
        assert(ps =~= Seq::<(Seq<char>, Seq<char>)>::empty());
    } else {
        let tail = ps.drop_first();
        assert(params_ok(tail)) by {
            assert forall|i: int| 0 <= i < tail.len() implies text_bytes(#[trigger] tail[i].0).len()
                > 0 && cstr_text(tail[i].0) && cstr_text(tail[i].1) by {
                assert(tail[i] == ps[i + 1]);
            }
        }
        lemma_params_bytes_front(ps);
        lemma_parse_params(tail);
        let key = ps[0].0;
        let val = ps[0].1;
        let r = params_bytes(tail) + seq![0u8];
        assert(b =~= cstr_bytes(key) + (cstr_bytes(val) + r));
        lemma_nul_index_cstr(key, cstr_bytes(val) + r);
        let k = text_bytes(key).len() as int;
        assert(b[0] == text_bytes(key)[0]);
        let rest = b.skip(k + 1);
        assert(rest =~= cstr_bytes(val) + r);
        lemma_nul_index_cstr(val, r);
        let j = text_bytes(val).len() as int;
        assert(b.take(k) =~= text_bytes(key));
        assert(rest.take(j) =~= text_bytes(val));
        assert(rest.skip(j + 1) =~= r);
        lemma_text_round_trip(key);
        lemma_text_round_trip(val);
        assert(seq![(key, val)] + tail =~= ps);
    }
}

/// Decoding the frame of a startup message, whatever follows it, gives the
/// message back and takes exactly the frame's bytes.
pub proof fn lemma_startup_round_trip(m: StartupView, rest: Seq<u8>)
    requires
        startup_ok(m),
    ensures
        Startup::decode_spec(startup_wire(m) + rest) == Ok::<Option<(StartupView, int)>, CodecError>(
            Some((m, startup_wire(m).len() as int)),
        ),
{
    let w = startup_wire(m);
    let b = w + rest;
    let n = startup_length(m) as u32;
    lemma_be32_round_trip(n);
    lemma_be16_round_trip(m.0);
    lemma_be16_round_trip(m.1);
    assert(b[0] == be32_bytes(n)[0]);
    assert(b[1] == be32_bytes(n)[1]);
    assert(b[2] == be32_bytes(n)[2]);
    assert(b[3] == be32_bytes(n)[3]);
    assert(b[4] == be16_bytes(m.0)[0]);
    assert(b[5] == be16_bytes(m.0)[1]);
    assert(b[6] == be16_bytes(m.1)[0]);
    assert(b[7] == be16_bytes(m.1)[1]);
    assert(b.subrange(8, n as int) =~= params_bytes(m.2) + seq![0u8]);
    lemma_parse_params(m.2);
    lemma_insert_all_sorted(m.2);
}

/// Every proper prefix of the frame of a startup message decodes as "not
/// enough data yet".
#[verifier::rlimit(50)]
pub proof fn lemma_startup_prefix(m: StartupView, k: int)
    requires
        startup_ok(m),
        0 <= k < startup_wire(m).len(),
    ensures
        Startup::decode_spec(startup_wire(m).take(k)) == Ok::<
            Option<(StartupView, int)>,
            CodecError,
        >(None),
{
    let b = startup_wire(m).take(k);
    let n = startup_length(m) as u32;
    lemma_be32_round_trip(n);
    if k >= 4 {
        assert(b[0] == be32_bytes(n)[0]);
        assert(b[1] == be32_bytes(n)[1]);
        assert(b[2] == be32_bytes(n)[2]);
        assert(b[3] == be32_bytes(n)[3]);
    }
}

/// The value of the first pair named `key`, if there is one.
pub open spec fn param_lookup(ps: Seq<(Seq<char>, Seq<char>)>, key: Seq<char>) -> Option<
    Seq<char>,
>
    decreases ps.len(),
{
    if ps.len() == 0 {
        None
    } else if ps[0].0 == key {
        Some(ps[0].1)
    } else {
        param_lookup(ps.drop_first(), key)
    }
}

impl Default for Startup {
    /// Protocol 3.0 with no parameters.
    fn default() -> (r: Startup)
        ensures
            r@ == (3u16, 0u16, Seq::<(Seq<char>, Seq<char>)>::empty()),
    {
        let r = Startup { protocol_number_major: 3, protocol_number_minor: 0, parameters: Vec::new() };
        assert(params_view(r.parameters@) =~= Seq::<(Seq<char>, Seq<char>)>::empty());
        r
    }
}

impl Startup {
    pub fn protocol_number_major(&self) -> (r: u16)
        ensures
            r == self@.0,
    {
        self.protocol_number_major
    }

    pub fn protocol_number_minor(&self) -> (r: u16)
        ensures
            r == self@.1,
    {
        self.protocol_number_minor
    }

    pub fn set_protocol_number_major(&mut self, v: u16)
        ensures
            final(self)@ == (v, old(self)@.1, old(self)@.2),
    {
        self.protocol_number_major = v;
    }

    pub fn set_protocol_number_minor(&mut self, v: u16)
        ensures
            final(self)@ == (old(self)@.0, v, old(self)@.2),
    {
        self.protocol_number_minor = v;
    }

    /// The parameter pairs in wire order.
    pub fn parameters(&self) -> (r: &Vec<(String, String)>)
        ensures
            params_view(r@) == self@.2,
    {
        &self.parameters
    }

    /// Sets every pair of `parameters` in turn: names end up ascending, and
    /// for a repeated name the later value stays.
    pub fn set_parameters(&mut self, parameters: Vec<(String, String)>)
        ensures
            final(self)@ == (old(self)@.0, old(self)@.1, insert_all(params_view(parameters@))),
            params_sorted(final(self)@.2),
    {
        let ghost src = params_view(parameters@);
        let mut out: Vec<(String, String)> = Vec::new();
        let mut i: usize = 0;
        proof {
            reveal(insert_all);
        }
        assert(params_view(out@) =~= insert_all(src.take(0)));
        while i < parameters.len()
            invariant
                0 <= i <= parameters@.len(),
                src == params_view(parameters@),
                params_view(out@) == insert_all(src.take(i as int)),
                params_sorted(params_view(out@)),
            decreases parameters@.len() - i,
        {
            let key = parameters[i].0.clone();
            let value = parameters[i].1.clone();
            insert_sorted(&mut out, key, value);
            assert(src.take(i + 1).drop_last() =~= src.take(i as int));
            proof {
                reveal(insert_all);
            }
            i = i + 1;
        }
        assert(src.take(i as int) =~= src);
        self.parameters = out;
    }

    /// The value of parameter `key` (the first pair of that name).
    pub fn parameter(&self, key: &String) -> (r: Option<&String>)
        ensures
            match r {
                Some(v) => param_lookup(self@.2, key@) == Some(v@),
                None => param_lookup(self@.2, key@) is None,
            },
    {
        let ghost ps = self@.2;
        let mut i: usize = 0;
        assert(ps.skip(0) =~= ps);
        while i < self.parameters.len()
            invariant
                0 <= i <= self.parameters@.len(),
                ps == params_view(self.parameters@),
                param_lookup(ps, key@) == param_lookup(ps.skip(i as int), key@),
            decreases self.parameters@.len() - i,
        {
            assert(ps.skip(i as int).drop_first() =~= ps.skip(i + 1));
            if self.parameters[i].0 == *key {
                return Some(&self.parameters[i].1);
            }
            i = i + 1;
        }
        None
    }

    /// Sets parameter `key` to `value`: in place where `key` is present,
    /// else at the position that keeps names ascending.
    pub fn insert_parameter(&mut self, key: String, value: String)
        requires
            params_sorted(old(self)@.2),
        ensures
            final(self)@ == (old(self)@.0, old(self)@.1, sorted_insert(old(self)@.2, key@, value@)),
            params_sorted(final(self)@.2),
            params_ok(old(self)@.2) && params_ok(seq![(key@, value@)]) ==> params_ok(
                final(self)@.2,
            ),
            startup_ok(old(self)@) && params_ok(seq![(key@, value@)]) && startup_length(old(self)@)
                + pair_bytes((key@, value@)).len() <= MAX_STARTUP_LENGTH ==> startup_ok(
                final(self)@,
            ),
    {
        insert_sorted(&mut self.parameters, key, value);
    }
}

/// Sets `key` to `value` in the ascending pairs `v`.
fn insert_sorted(v: &mut Vec<(String, String)>, key: String, value: String)
    requires
        params_sorted(params_view(old(v)@)),
    ensures
        params_view(final(v)@) == sorted_insert(params_view(old(v)@), key@, value@),
        params_sorted(params_view(final(v)@)),
        params_ok(params_view(old(v)@)) && params_ok(seq![(key@, value@)]) ==> params_ok(
            params_view(final(v)@),
        ),
        params_bytes(params_view(final(v)@)).len() <= params_bytes(params_view(old(v)@)).len()
            + pair_bytes((key@, value@)).len(),
{
    let ghost ps = params_view(v@);
    let ghost k = key@;
    let ghost x = (key@, value@);
    let mut i: usize = 0;
    while i < v.len() && bytes_less(string_bytes(&v[i].0), string_bytes(&key))
        invariant
            0 <= i <= v@.len(),
            ps == params_view(v@),
            k == key@,
            x == (key@, value@),
            forall|j: int| 0 <= j < i ==> #[trigger] name_lt(ps[j].0, k),
        decreases v@.len() - i,
    {
        i = i + 1;
    }
    proof {
        lemma_sorted_insert_skip(ps, k, value@, i as int);
    }
    proof {
        reveal(sorted_insert);
    }
    if i < v.len() && v[i].0 == key {
        v.set(i, (key, value));
        proof {
            let q0 = params_view(v@);
            let pre = ps.take(i as int);
            let post = ps.skip(i + 1);
            assert(q0 =~= pre + seq![x] + post);
            assert(ps =~= pre + seq![ps[i as int]] + post);
            lemma_params_bytes_concat(pre + seq![x], post);
            lemma_params_bytes_concat(pre, seq![x]);
            lemma_params_bytes_concat(pre + seq![ps[i as int]], post);
            lemma_params_bytes_concat(pre, seq![ps[i as int]]);
            assert(seq![x].drop_last() =~= Seq::<(Seq<char>, Seq<char>)>::empty());
            assert(seq![ps[i as int]].drop_last() =~= Seq::<(Seq<char>, Seq<char>)>::empty());
            lemma_params_bytes_one(x);
            lemma_params_bytes_one(ps[i as int]);
            assert(params_view(final(v)@) == q0);
            assert(ps.skip(i as int).drop_first() =~= ps.skip(i + 1));
            assert(params_view(v@) =~= ps.take(i as int) + (seq![x] + ps.skip(i as int).drop_first()));
            assert forall|a: int, b: int| 0 <= a < b < ps.len() implies #[trigger] name_lt(
                params_view(v@)[a].0,
                params_view(v@)[b].0,
            ) by {
                assert(params_view(v@)[a].0 == ps[a].0);
                assert(params_view(v@)[b].0 == ps[b].0);
            }
            let q = params_view(v@);
            if params_ok(ps) && params_ok(seq![x]) {
                assert forall|j: int| 0 <= j < q.len() implies text_bytes(#[trigger] q[j].0).len()
                    > 0 && cstr_text(q[j].0) && cstr_text(q[j].1) by {
                    if j == i {
                        assert(seq![x][0] == x);
                    } else {
                        assert(q[j] == ps[j]);
                    }
                }
            }
        }
    } else {
        proof {
            if i < ps.len() {
                lemma_name_total(ps[i as int].0, k);
                lemma_bytes_lt_irreflexive(text_bytes(k));
            }
        }
        v.insert(i, (key, value));
        proof {
            let q0 = params_view(v@);
            let pre = ps.take(i as int);
            let post = ps.skip(i as int);
            assert(q0 =~= pre + seq![x] + post);
            assert(ps =~= pre + post);
            lemma_params_bytes_concat(pre + seq![x], post);
            lemma_params_bytes_concat(pre, seq![x]);
            lemma_params_bytes_concat(pre, post);
            assert(seq![x].drop_last() =~= Seq::<(Seq<char>, Seq<char>)>::empty());
            lemma_params_bytes_one(x);
            let q = params_view(v@);
            assert(q =~= ps.take(i as int) + (seq![x] + ps.skip(i as int)));
            assert forall|a: int, b: int| 0 <= a < b < q.len() implies #[trigger] name_lt(
                q[a].0,
                q[b].0,
            ) by {
                if b < i {
                    assert(q[a] == ps[a] && q[b] == ps[b]);
                } else if b == i {
                    assert(q[a] == ps[a]);
                } else if a < i {
                    assert(q[a] == ps[a] && q[b] == ps[b - 1]);
                } else if a == i {
                    assert(q[b] == ps[b - 1]);
                    if b - 1 > i {
                        assert(name_lt(ps[i as int].0, ps[b - 1].0));
                        lemma_bytes_lt_transitive(
                            text_bytes(k),
                            text_bytes(ps[i as int].0),
                            text_bytes(ps[b - 1].0),
                        );
                    }
                } else {
                    assert(q[a] == ps[a - 1] && q[b] == ps[b - 1]);
                }
            }
            if params_ok(ps) && params_ok(seq![x]) {
                assert forall|j: int| 0 <= j < q.len() implies text_bytes(#[trigger] q[j].0).len()
                    > 0 && cstr_text(q[j].0) && cstr_text(q[j].1) by {
                    if j < i {
                        assert(q[j] == ps[j]);
                    } else if j == i {
                        assert(seq![x][0] == x);
                    } else {
                        assert(q[j] == ps[j - 1]);
                    }
                }
            }
        }
    }
}

/// Past a prefix of names that all come before `key`, inserting works on
/// the rest alone.
proof fn lemma_sorted_insert_skip(
    ps: Seq<(Seq<char>, Seq<char>)>,
    key: Seq<char>,
    value: Seq<char>,
    i: int,
)
    requires
        0 <= i <= ps.len(),
        forall|j: int| 0 <= j < i ==> #[trigger] name_lt(ps[j].0, key),
    ensures
        sorted_insert(ps, key, value) == ps.take(i) + sorted_insert(ps.skip(i), key, value),
    decreases i,
{
    reveal(sorted_insert);
    if i == 0 {
        assert(ps.skip(0) =~= ps);
        assert(ps.take(0) + sorted_insert(ps, key, value) =~= sorted_insert(ps, key, value));
    } else {
        let t = ps.drop_first();
        assert(name_lt(ps[0].0, key));
        lemma_bytes_lt_irreflexive(text_bytes(key));
        lemma_bytes_lt_asymmetric(text_bytes(ps[0].0), text_bytes(key));
        assert forall|j: int| 0 <= j < i - 1 implies #[trigger] name_lt(t[j].0, key) by {
            assert(t[j] == ps[j + 1]);
            assert(name_lt(ps[j + 1].0, key));
        }
        lemma_sorted_insert_skip(t, key, value, i - 1);
        assert(t.skip(i - 1) =~= ps.skip(i));
        assert(seq![ps[0]] + t.take(i - 1) =~= ps.take(i));
        assert(seq![ps[0]] + (t.take(i - 1) + sorted_insert(ps.skip(i), key, value)) =~= ps.take(i)
            + sorted_insert(ps.skip(i), key, value));
    }
}

/// Setting ascending pairs one by one, starting from none, gives them back.
pub proof fn lemma_insert_all_sorted(ps: Seq<(Seq<char>, Seq<char>)>)
    requires
        params_sorted(ps),
    ensures
        insert_all(ps) == ps,
    decreases ps.len(),
{
    reveal(insert_all);
    reveal(sorted_insert);
    if ps.len() == 0 {
        assert(ps =~= Seq::<(Seq<char>, Seq<char>)>::empty());
    } else {
        let init = ps.drop_last();
        let n = init.len() as int;
        assert forall|i: int, j: int| 0 <= i < j < init.len() implies #[trigger] name_lt(
            init[i].0,
            init[j].0,
        ) by {
            assert(name_lt(ps[i].0, ps[j].0));
        }
        lemma_insert_all_sorted(init);
        assert forall|j: int| 0 <= j < n implies #[trigger] name_lt(init[j].0, ps.last().0) by {
            assert(name_lt(ps[j].0, ps[n].0));
        }
        lemma_sorted_insert_skip(init, ps.last().0, ps.last().1, n);
        assert(init.skip(n) =~= Seq::<(Seq<char>, Seq<char>)>::empty());
        assert(init.take(n) =~= init);
        assert(init + seq![(ps.last().0, ps.last().1)] =~= ps);
    }
}

/// The bytes of two lists of pairs one after the other.
proof fn lemma_params_bytes_concat(a: Seq<(Seq<char>, Seq<char>)>, b: Seq<(Seq<char>, Seq<char>)>)
    ensures
        params_bytes(a + b) == params_bytes(a) + params_bytes(b),
    decreases b.len(),
{
    if b.len() == 0 {
        assert(a + b =~= a);
        assert(params_bytes(a) + params_bytes(b) =~= params_bytes(a));
    } else {
        lemma_params_bytes_concat(a, b.drop_last());
        assert((a + b).drop_last() =~= a + b.drop_last());
        assert((a + b).last() == b.last());
        assert(params_bytes(a + b) =~= params_bytes(a) + params_bytes(b));
    }
}

/// No startup message is read from a buffer whose first byte is not zero,
/// such as a tagged message sent first: the length field that byte begins
/// exceeds the largest startup frame, so decoding fails.
pub proof fn lemma_tagged_frame_not_startup(b: Seq<u8>)
    requires
        b.len() >= 4,
        b[0] != 0,
    ensures
        Startup::decode_spec(b) == Err::<Option<(StartupView, int)>, CodecError>(
            CodecError::InvalidLength,
        ),
{
    let b0 = b[0];
    let b1 = b[1];
    let b2 = b[2];
    let b3 = b[3];
    assert(((b0 as u32) << 24u32) | ((b1 as u32) << 16u32) | ((b2 as u32) << 8u32) | (b3 as u32)
        >= 16777216u32) by (bit_vector)
        requires
            b0 != 0,
    ;
}

/// The bytes of a single pair.
proof fn lemma_params_bytes_one(x: (Seq<char>, Seq<char>))
    ensures
        params_bytes(seq![x]) == pair_bytes(x),
{
    let s = seq![x];
    assert(s.drop_last() =~= Seq::<(Seq<char>, Seq<char>)>::empty());
    assert(s.last() == x);
    assert(params_bytes(s.drop_last()) == Seq::<u8>::empty());
    assert(params_bytes(s) =~= pair_bytes(x));
}

} // verus!
