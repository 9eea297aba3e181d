//! A server-side adapter for a SmartFox-compatible text protocol over a byte
//! stream: a frame codec that splits the stream into NUL-terminated UTF-8
//! messages, a per-connection session state machine driving the
//! handshake/login/dispatch sequence, and the `%xt%` packet codec in
//! [`packet`].

pub mod packet;
pub mod scan;

use vstd::prelude::*;
use vstd::string::StrSliceExecFns;
use vstd::string::StringExecFns;
use vstd::utf8::decode_utf8;
use vstd::utf8::encode_utf8;
use vstd::utf8::encode_scalar;
use vstd::utf8::valid_utf8;

use crate::packet::{serialize_model, Packet};
use crate::scan::{
    has_seq_at, match_at, pass_run_end, pass_run_len, word_run_end, word_run_len,
};

verus! {

/// Protocol phase of one client connection.
///
/// `Error` is terminal: no transition leaves it.
#[derive(Clone, Copy, PartialEq, Eq, Structural, Debug)]
pub enum SmartFoxServiceState {
    Handshake,
    Login,
    Running,
    Error,
}

/// A frame held bytes that are not valid UTF-8. Fatal to the connection: the
/// codec offers no resynchronization.
#[derive(Clone, Copy, PartialEq, Eq, Structural, Debug)]
pub struct FramingError;

/// A hard protocol failure: a malformed login, or any activity once the
/// session is in `Error`.
#[derive(Clone, Copy, PartialEq, Eq, Structural, Debug)]
pub enum SessionError {
    InvalidData,
}

/// Index of the first terminator byte in `b`, or `b.len()` when there is
/// none.
pub open spec fn first_nul(b: Seq<u8>) -> int
    decreases b.len(),
{
    if b.len() == 0 {
        0
    } else if b[0] == 0 {
        0
    } else {
        1 + first_nul(b.drop_first())
    }
}

/// `first_nul` is pinned down by its endpoint: every byte before `e` is
/// non-zero and `e` is the end of the buffer or a zero byte.
pub proof fn lemma_first_nul(b: Seq<u8>, e: int)
    requires
        0 <= e <= b.len(),
        forall|k: int| 0 <= k < e ==> #[trigger] b[k] != 0,
        e < b.len() ==> b[e] == 0,
    ensures
        first_nul(b) == e,
    decreases b.len(),
{
    if b.len() == 0 {
    } else if b[0] == 0 {
        assert(e == 0);
    } else {
        assert(e >= 1);
        lemma_first_nul(b.drop_first(), e - 1);
    }
}

/// Relies on std's `str::from_utf8`: returns the decoded text exactly when
/// the bytes are a valid UTF-8 encoding (vstd's model of UTF-8).
#[verifier::external_body]
fn frame_to_str(bytes: &[u8]) -> (r: Option<&str>)
    ensures
        r is Some <==> valid_utf8(bytes@),
        r is Some ==> (r->0)@ == decode_utf8(bytes@),
{
    std::str::from_utf8(bytes).ok()
}

/// The frame codec: converts between a raw byte buffer and discrete UTF-8
/// text messages, each terminated on the wire by a single 0x00 byte.
pub struct SmartFoxCodec;

impl SmartFoxCodec {
    /// Take one complete message off the front of `buf`.
    ///
    /// When `buf` holds no terminator byte, nothing is consumed and no
    /// message is returned. Otherwise the first frame and its terminator are
    /// consumed; the message is its UTF-8 decoding, or a [`FramingError`]
    /// when the frame is not valid UTF-8.
    pub fn decode(&mut self, buf: &mut Vec<u8>) -> (r: Result<Option<String>, FramingError>)
        ensures
            ({
                let b = old(buf)@;
                let i = first_nul(b);
                &&& (i == b.len() ==> r is Ok && r->Ok_0 is None && final(buf)@ == b)
                &&& (i < b.len() ==> final(buf)@ == b.subrange(i + 1, b.len() as int) && (
                valid_utf8(b.subrange(0, i)) ==> r is Ok && r->Ok_0 is Some && (r->Ok_0->0)@
                    == decode_utf8(b.subrange(0, i))) && (!valid_utf8(b.subrange(0, i))
                    ==> r is Err))
            }),
    {
        let n = buf.len();
        let mut i: usize = 0;
        while i < n && buf[i] != 0
            invariant
                i <= n,
                n == buf@.len(),
                buf@ == old(buf)@,
                forall|k: int| 0 <= k < i ==> #[trigger] buf@[k] != 0,
            decreases n - i,
        {
            i += 1;
        }
        proof {
            lemma_first_nul(buf@, i as int);
        }
        if i == n {
            return Ok(None);
        }
        let mut head: Vec<u8> = Vec::new();
        let mut j: usize = 0;
        while j < i
            invariant
                j <= i <= n,
                n == buf@.len(),
                buf@ == old(buf)@,
                head@ =~= buf@.subrange(0, j as int),
            decreases i - j,
        {
            head.push(buf[j]);
            j += 1;
        }
        let mut rest: Vec<u8> = Vec::new();
        let mut j: usize = i + 1;
        while j < n
            invariant
                i + 1 <= j <= n,
                n == buf@.len(),
                buf@ == old(buf)@,
                rest@ =~= buf@.subrange(i + 1, j as int),
            decreases n - j,
        {
            rest.push(buf[j]);
            j += 1;
        }
        let msg = frame_to_str(head.as_slice());
        *buf = rest;
        match msg {
            Some(s) => Ok(Some(s.to_owned())),
            None => Err(FramingError),
        }
    }

    /// Append the UTF-8 bytes of `msg` and one terminator byte to `buf`.
    /// This never fails.
    pub fn encode(&mut self, msg: String, buf: &mut Vec<u8>)
        ensures
            final(buf)@ == old(buf)@ + encode_utf8(msg@) + seq![0u8],
    {
        buf.extend_from_slice(msg.as_str().as_bytes());
        buf.push(0u8);
        proof {
            assert(buf@ =~= old(buf)@ + encode_utf8(msg@) + seq![0u8]);
        }
    }
}

/// No byte of the UTF-8 encoding of a NUL-free text is the terminator byte.
proof fn lemma_encode_utf8_no_nul(msg: Seq<char>)
    requires
        forall|i: int| 0 <= i < msg.len() ==> msg[i] != '\0',
    ensures
        forall|k: int| 0 <= k < encode_utf8(msg).len() ==> #[trigger] encode_utf8(msg)[k] != 0,
    decreases msg.len(),
{
    if msg.len() > 0 {
        let c = msg[0];
        let u = c as u32;
        vstd::utf8::char_is_scalar(c);
        vstd::utf8::char_u32_cast(c, u);
        assert(u != 0) by {
            if u == 0 {
                assert((u as char) == c);
            }
        }
        let enc = encode_scalar(u);
        assert(forall|k: int| 0 <= k < enc.len() ==> #[trigger] enc[k] != 0) by {
            if vstd::utf8::has_width_1_encoding(u) {
                assert((u & 0x7F) as u8 != 0) by (bit_vector)
                    requires
                        1 <= u <= 0x7F,
                ;
            } else {
                assert((0xC0 | ((u >> 6) & 0x1F) as u8) != 0) by (bit_vector);
                assert((0xE0 | ((u >> 12) & 0x0F) as u8) != 0) by (bit_vector);
                assert((0xF0 | ((u >> 18) & 0x7) as u8) != 0) by (bit_vector);
                assert((0x80 | (u & 0x3F) as u8) != 0) by (bit_vector);
                assert((0x80 | ((u >> 6) & 0x3F) as u8) != 0) by (bit_vector);
                assert((0x80 | ((u >> 12) & 0x3F) as u8) != 0) by (bit_vector);
            }
        }
        lemma_encode_utf8_no_nul(msg.drop_first());
        assert(encode_utf8(msg) =~= enc + encode_utf8(msg.drop_first()));
    }
}

/// Frame round trip: for a message holding no NUL character, decoding the
/// bytes produced by encoding it yields exactly the message and consumes
/// exactly the encoding plus the one terminator byte, leaving nothing.
pub proof fn lemma_frame_round_trip(msg: Seq<char>)
    requires
        forall|i: int| 0 <= i < msg.len() ==> msg[i] != '\0',
    ensures
        ({
            let payload = encode_utf8(msg);
            let framed = payload + seq![0u8];
            &&& framed.len() == payload.len() + 1
            &&& first_nul(framed) == payload.len()
            &&& framed.subrange(0, payload.len() as int) == payload
            &&& valid_utf8(payload)
            &&& decode_utf8(payload) == msg
            &&& framed.subrange(payload.len() as int + 1, framed.len() as int) == Seq::<u8>::empty()
        }),
{
    broadcast use vstd::utf8::encode_utf8_valid_utf8;
    broadcast use vstd::utf8::encode_utf8_decode_utf8;

    let payload = encode_utf8(msg);
    let framed = payload + seq![0u8];
    lemma_encode_utf8_no_nul(msg);
    lemma_first_nul(framed, payload.len() as int);
    assert(framed.subrange(0, payload.len() as int) =~= payload);
    assert(framed.subrange(payload.len() as int + 1, framed.len() as int) =~= Seq::<u8>::empty());
}

/// The game-logic component behind a session. It decides what `login` and
/// `request` actually do; the session only routes validated inputs to it and
/// serializes whatever packets it returns.
pub trait Delegate {
    fn login(&mut self, room: &str, un: &str, pw: &str) -> Vec<Packet>;

    fn request(&mut self, packet: Packet) -> Vec<Packet>;
}

/// The literal version-check request expected during the handshake.
pub open spec fn verchk_request() -> Seq<char> {
    "<msg t='sys'><body action='verChk' r='0'><ver v='166' /></body></msg>"@
}

/// The literal response to a correct version check.
pub open spec fn api_ok_response() -> Seq<char> {
    "<msg t='sys'><body action='apiOK' r='0'></body></msg>"@
}

/// The literal response to a failed version check.
pub open spec fn api_err_response() -> Seq<char> {
    "<msg t='sys'><body action='apiERR' r='0'></body></msg>"@
}

/// The fixed text before the room capture of a login message.
pub open spec fn login_prefix() -> Seq<char> {
    "<msg t='sys'><body action='login' r='0'><login z='"@
}

/// The fixed text between the room and nick captures.
pub open spec fn login_mid1() -> Seq<char> {
    "'><nick><![CDATA["@
}

/// The fixed text between the nick and password captures.
pub open spec fn login_mid2() -> Seq<char> {
    "]]></nick><pword><![CDATA["@
}

/// The fixed text after the password capture, ending the message.
pub open spec fn login_suffix() -> Seq<char> {
    "]]></pword></login></body></msg>"@
}

/// True when the login template occurs in `s` at offset `off`: the fixed
/// text around a non-empty word-character room, a word-character nick, and a
/// password of word characters and `%`. The peer may send other bytes before
/// and after the template.
pub open spec fn login_matches_at(s: Seq<char>, off: int) -> bool {
    let a = off + login_prefix().len();
    let rn = word_run_len(s, a);
    let b = a + rn + login_mid1().len();
    let nn = word_run_len(s, b);
    let c = b + nn + login_mid2().len();
    let pn = pass_run_len(s, c);
    &&& has_seq_at(s, off, login_prefix())
    &&& rn >= 1
    &&& has_seq_at(s, a + rn, login_mid1())
    &&& has_seq_at(s, b + nn, login_mid2())
    &&& has_seq_at(s, c + pn, login_suffix())
}

/// True when the login template occurs somewhere in `s`.
pub open spec fn login_matches(s: Seq<char>) -> bool {
    exists|off: int| login_matches_at(s, off)
}

/// True when `off` is the leftmost offset at which the login template occurs
/// in `s`.
pub open spec fn is_first_login_off(s: Seq<char>, off: int) -> bool {
    login_matches_at(s, off) && (forall|o: int| o < off ==> !login_matches_at(s, o))
}

/// The room captured from the login template at offset `off`.
pub open spec fn login_room_at(s: Seq<char>, off: int) -> Seq<char> {
    let a = off + login_prefix().len();
    s.subrange(a, a + word_run_len(s, a))
}

/// The nick captured from the login template at offset `off`.
pub open spec fn login_nick_at(s: Seq<char>, off: int) -> Seq<char> {
    let a = off + login_prefix().len();
    let b = a + word_run_len(s, a) + login_mid1().len();
    s.subrange(b, b + word_run_len(s, b))
}

/// The password captured from the login template at offset `off`.
pub open spec fn login_pword_at(s: Seq<char>, off: int) -> Seq<char> {
    let a = off + login_prefix().len();
    let b = a + word_run_len(s, a) + login_mid1().len();
    let c = b + word_run_len(s, b) + login_mid2().len();
    s.subrange(c, c + pass_run_len(s, c))
}

/// Match the login template at offset `off` and extract the captures.
fn scan_login_at(input: &str, off: usize) -> (r: Option<(String, String, String)>)
    requires
        off <= input@.len(),
    ensures
        r is Some <==> login_matches_at(input@, off as int),
        r is Some ==> (r->0).0@ == login_room_at(input@, off as int),
        r is Some ==> (r->0).1@ == login_nick_at(input@, off as int),
        r is Some ==> (r->0).2@ == login_pword_at(input@, off as int),
{
    let n = input.unicode_len();
    let p1 = "<msg t='sys'><body action='login' r='0'><login z='";
    let p2 = "'><nick><![CDATA[";
    let p3 = "]]></nick><pword><![CDATA[";
    let p4 = "]]></pword></login></body></msg>";
    if !match_at(input, off, p1) {
        return None;
    }
    let a = off + p1.unicode_len();
    let ra = word_run_end(input, a);
    if ra == a {
        return None;
    }
    if !match_at(input, ra, p2) {
        return None;
    }
    let b = ra + p2.unicode_len();
    let nb = word_run_end(input, b);
    if !match_at(input, nb, p3) {
        return None;
    }
    let c = nb + p3.unicode_len();
    let pc = pass_run_end(input, c);
    if !match_at(input, pc, p4) {
        return None;
    }
    let room = input.substring_char(a, ra).to_owned();
    let nick = input.substring_char(b, nb).to_owned();
    let pword = input.substring_char(c, pc).to_owned();
    Some((room, nick, pword))
}

/// Search `input` for the leftmost occurrence of the login template and
/// extract the room, nick and password captures from it.
pub fn scan_login(input: &str) -> (r: Option<(String, String, String)>)
    ensures
        r is Some <==> login_matches(input@),
        r is Some ==> (exists|off: int|
            #[trigger] is_first_login_off(input@, off) && (r->0).0@ == login_room_at(input@, off)
                && (r->0).1@ == login_nick_at(input@, off) && (r->0).2@ == login_pword_at(
                input@,
                off,
            )),
{
    let n = input.unicode_len();
    let mut off: usize = 0;
    while off < n
        invariant
            off <= n,
            n == input@.len(),
            forall|o: int| 0 <= o < off ==> !login_matches_at(input@, o),
        decreases n - off,
    {
        let found = scan_login_at(input, off);
        if found.is_some() {
            proof {
                assert forall|o: int| o < off as int implies !login_matches_at(input@, o) by {
                    if o < 0 {
                        assert(!has_seq_at(input@, o, login_prefix()));
                    }
                }
                assert(is_first_login_off(input@, off as int));
            }
            return found;
        }
        off += 1;
    }
    proof {
        reveal_strlit("<msg t='sys'><body action='login' r='0'><login z='");
        assert forall|o: int| !login_matches_at(input@, o) by {
            if o < 0 || o >= n as int {
                assert(login_prefix().len() > 0);
                assert(!has_seq_at(input@, o, login_prefix()));
            }
        }
    }
    None
}

/// The serializations of the packets, joined by the terminator byte's
/// character so that the peer's frame codec will split them back into
/// individual messages.
pub open spec fn join_model(ps: Seq<Packet>) -> Seq<char>
    decreases ps.len(),
{
    if ps.len() == 0 {
        Seq::empty()
    } else if ps.len() == 1 {
        serialize_model(ps[0]@)
    } else {
        join_model(ps.drop_last()) + seq!['\0'] + serialize_model(ps.last()@)
    }
}

proof fn lemma_join_model_step(ps: Seq<Packet>, i: int)
    requires
        0 <= i < ps.len(),
    ensures
        join_model(ps.take(i + 1)) == (if i == 0 {
            serialize_model(ps[0]@)
        } else {
            join_model(ps.take(i)) + seq!['\0'] + serialize_model(ps[i]@)
        }),
{
    let t = ps.take(i + 1);
    if i == 0 {
        assert(t.len() == 1);
        assert(t[0] == ps[0]);
    } else {
        assert(t.drop_last() =~= ps.take(i));
        assert(t.last() == ps[i]);
    }
}

/// Serialize each packet and join the results with the terminator byte.
pub fn join_packets(packets: &Vec<Packet>) -> (r: String)
    ensures
        r@ == join_model(packets@),
{
    let mut r = String::new();
    proof {
        assert(packets@.take(0) =~= Seq::<Packet>::empty());
    }
    let mut idx: usize = 0;
    while idx < packets.len()
        invariant
            idx <= packets@.len(),
            r@ == join_model(packets@.take(idx as int)),
        decreases packets@.len() - idx,
    {
        if idx > 0 {
            r.append("\0");
        }
        let s = packets[idx].to_string();
        r.append(s.as_str());
        proof {
            reveal_strlit("\0");
            assert("\0"@ =~= seq!['\0']);
            lemma_join_model_step(packets@, idx as int);
        }
        idx += 1;
    }
    proof {
        assert(packets@.take(packets@.len() as int) =~= packets@);
    }
    r
}

/// One session per connection: the state machine that interprets each
/// decoded message according to the current phase and hands validated
/// requests to the delegate.
pub struct SmartFoxService<D: Delegate> {
    pub delegate: D,
    pub state: SmartFoxServiceState,
}

impl<D: Delegate> SmartFoxService<D> {
    /// A fresh session for one connection, in the `Handshake` phase.
    pub fn new(delegate: D) -> (s: Self)
        ensures
            s.state == SmartFoxServiceState::Handshake,
            s.delegate == delegate,
    {
        SmartFoxService { delegate, state: SmartFoxServiceState::Handshake }
    }

    /// Process one decoded message and produce one response message.
    ///
    /// A handshake mismatch is a soft failure: the `apiERR` response is
    /// returned successfully even though the session is now terminal. A
    /// malformed login is a hard failure, and once in `Error` every call
    /// fails, whatever the input.
    pub fn call(&mut self, input: String) -> (r: Result<String, SessionError>)
        ensures
            old(self).state == SmartFoxServiceState::Handshake && input@ == verchk_request()
                ==> final(self).state == SmartFoxServiceState::Login && r is Ok && (r->Ok_0)@
                == api_ok_response(),
            old(self).state == SmartFoxServiceState::Handshake && input@ != verchk_request()
                ==> final(self).state == SmartFoxServiceState::Error && r is Ok && (r->Ok_0)@
                == api_err_response(),
            old(self).state == SmartFoxServiceState::Login && login_matches(input@)
                ==> final(self).state == SmartFoxServiceState::Running && r is Ok && (exists|ps: Seq<Packet>|
                (r->Ok_0)@ == join_model(ps)),
            old(self).state == SmartFoxServiceState::Login && !login_matches(input@)
                ==> final(self).state == SmartFoxServiceState::Error && r is Err && r->Err_0
                == SessionError::InvalidData,
            old(self).state == SmartFoxServiceState::Running ==> final(self).state
                == SmartFoxServiceState::Running && r is Ok && (exists|ps: Seq<Packet>|
                (r->Ok_0)@ == join_model(ps)),
            old(self).state == SmartFoxServiceState::Error ==> final(self).state
                == SmartFoxServiceState::Error && r is Err && r->Err_0
                == SessionError::InvalidData,
    {
        match self.state {
            SmartFoxServiceState::Handshake => {
                let expected =
                    "<msg t='sys'><body action='verChk' r='0'><ver v='166' /></body></msg>".to_owned();
                if input == expected {
                    self.state = SmartFoxServiceState::Login;
                    Ok("<msg t='sys'><body action='apiOK' r='0'></body></msg>".to_owned())
                } else {
                    self.state = SmartFoxServiceState::Error;
                    Ok("<msg t='sys'><body action='apiERR' r='0'></body></msg>".to_owned())
                }
            },
            SmartFoxServiceState::Login => {
                match scan_login(input.as_str()) {
                    Some((room, nick, pword)) => {
                        self.state = SmartFoxServiceState::Running;
                        let packets = self.delegate.login(
                            room.as_str(),
                            nick.as_str(),
                            pword.as_str(),
                        );
                        let joined = join_packets(&packets);
                        proof {
                            assert(joined@ == join_model(packets@));
                        }
                        Ok(joined)
                    },
                    None => {
                        self.state = SmartFoxServiceState::Error;
                        Err(SessionError::InvalidData)
                    },
                }
            },
            SmartFoxServiceState::Running => {
                let pkt = Packet::from_str(input.as_str());
                let packets = self.delegate.request(pkt);
                let joined = join_packets(&packets);
                proof {
                    assert(joined@ == join_model(packets@));
                }
                Ok(joined)
            },
            SmartFoxServiceState::Error => Err(SessionError::InvalidData),
        }
    }
}

} // verus!
