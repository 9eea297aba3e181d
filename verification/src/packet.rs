//! The `%xt%` application wire format: parsing a message into a [`Packet`]
//! and serializing a [`Packet`] back onto the wire.

use vstd::prelude::*;
use vstd::string::StrSliceExecFns;
use vstd::string::StringExecFns;

use crate::scan::{
    has_seq_at, is_word_char, lemma_trim_pct_append, lemma_trim_pct_len, lemma_word_run_len,
    match_at, trim_pct, word_run_end, word_run_len,
};

verus! {

/// One application-level unit of communication.
///
/// An empty `name` is the sentinel for a raw, unstructured payload: such a
/// packet serializes to exactly `data`. A non-empty `name` serializes to a
/// `%xt%`-framed string. An empty `room` means "no room".
#[derive(Debug, Clone)]
pub struct Packet {
    pub name: String,
    pub room: String,
    pub data: String,
}

/// The mathematical content of a [`Packet`]: its three fields as character
/// sequences.
#[verifier::ext_equal]
pub struct PacketModel {
    pub name: Seq<char>,
    pub room: Seq<char>,
    pub data: Seq<char>,
}

impl View for Packet {
    type V = PacketModel;

    open spec fn view(&self) -> PacketModel {
        PacketModel { name: self.name@, room: self.room@, data: self.data@ }
    }
}

impl PartialEq for Packet {
    fn eq(&self, other: &Packet) -> (r: bool) {
        self.name == other.name && self.room == other.room && self.data == other.data
    }
}

impl vstd::std_specs::cmp::PartialEqSpecImpl for Packet {
    open spec fn obeys_eq_spec() -> bool {
        true
    }

    open spec fn eq_spec(&self, other: &Packet) -> bool {
        self@ == other@
    }
}

/// The leading literal of every structured packet.
pub open spec fn xt_prefix() -> Seq<char> {
    seq!['%', 'x', 't', '%']
}

/// The literal that separates the packet name from the payload marker.
pub open spec fn xt_marker() -> Seq<char> {
    seq!['%', '1', '%']
}

/// Length of the packet name: the maximal run of word characters after the
/// `%xt%` prefix.
pub open spec fn packet_name_len(s: Seq<char>) -> int {
    word_run_len(s, 4)
}

/// True when `s` is a structured packet: the `%xt%` prefix, a non-empty
/// word-character name, the `%1%` separator, and the `0` payload marker.
pub open spec fn packet_matches(s: Seq<char>) -> bool {
    let n = packet_name_len(s);
    &&& has_seq_at(s, 0, xt_prefix())
    &&& n >= 1
    &&& has_seq_at(s, 4 + n, xt_marker())
    &&& 4 + n + 3 < s.len()
    &&& s[4 + n + 3] == '0'
}

/// Index at which the payload begins: just after the `0` marker, skipping
/// one further `%` if the peer sent one.
pub open spec fn packet_payload_start(s: Seq<char>) -> int {
    let p = 4 + packet_name_len(s) + 4;
    if p < s.len() && s[p] == '%' {
        p + 1
    } else {
        p
    }
}

/// The name captured from a structured packet.
pub open spec fn packet_name(s: Seq<char>) -> Seq<char> {
    s.subrange(4, 4 + packet_name_len(s))
}

/// The payload captured from a structured packet, with trailing `%`
/// characters removed.
pub open spec fn packet_data(s: Seq<char>) -> Seq<char> {
    trim_pct(s.subrange(packet_payload_start(s), s.len() as int))
}

/// What parsing a message yields: the captures of a structured packet, or
/// the whole text as a raw payload. Parsing never recovers a room qualifier.
pub open spec fn parse_model(s: Seq<char>) -> PacketModel {
    if packet_matches(s) {
        PacketModel { name: packet_name(s), room: Seq::empty(), data: packet_data(s) }
    } else {
        PacketModel { name: Seq::empty(), room: Seq::empty(), data: s }
    }
}

/// What serializing a packet yields: `data` verbatim for the raw sentinel,
/// `%xt%{name}%1%0{data}%` without a room, `%xt%{room}%{name}%1%0{data}%`
/// with one.
pub open spec fn serialize_model(m: PacketModel) -> Seq<char> {
    if m.name.len() == 0 {
        m.data
    } else if m.room.len() == 0 {
        xt_prefix() + m.name + xt_marker() + seq!['0'] + m.data + seq!['%']
    } else {
        xt_prefix() + m.room + seq!['%'] + m.name + xt_marker() + seq!['0'] + m.data + seq!['%']
    }
}

impl Packet {
    /// Parse a message. This never fails: text that is not a structured
    /// packet degrades to a raw packet carrying the text verbatim.
    pub fn from_str(input: &str) -> (p: Packet)
        ensures
            p@ == parse_model(input@),
    {
        let n = input.unicode_len();
        proof {
            reveal_strlit("%xt%");
            reveal_strlit("%1%");
            assert("%xt%"@ =~= xt_prefix());
            assert("%1%"@ =~= xt_marker());
        }
        if !match_at(input, 0, "%xt%") {
            return Packet::passthrough(input);
        }
        let e = word_run_end(input, 4);
        if e == 4 {
            return Packet::passthrough(input);
        }
        if !match_at(input, e, "%1%") {
            return Packet::passthrough(input);
        }
        let p = e + 3;
        if p >= n || input.get_char(p) != '0' {
            return Packet::passthrough(input);
        }
        assert(packet_matches(input@));
        let mut q = p + 1;
        if q < n && input.get_char(q) == '%' {
            q += 1;
        }
        assert(q == packet_payload_start(input@));
        let mut end = n;
        while end > q && input.get_char(end - 1) == '%'
            invariant
                q <= end <= n,
                n == input@.len(),
                forall|k: int| end <= k < n ==> #[trigger] input@[k] == '%',
            decreases end,
        {
            end -= 1;
        }
        proof {
            let payload = input@.subrange(q as int, n as int);
            lemma_trim_pct_len(payload, end - q);
            assert(trim_pct(payload) =~= input@.subrange(q as int, end as int));
        }
        let name = input.substring_char(4, e).to_owned();
        let data = input.substring_char(q, end).to_owned();
        let p = Packet { name, room: String::new(), data };
        proof {
            assert(p@.name =~= packet_name(input@));
            assert(p@ =~= parse_model(input@));
        }
        p
    }

    /// The raw packet that carries `input` verbatim.
    fn passthrough(input: &str) -> (p: Packet)
        requires
            !packet_matches(input@),
        ensures
            p@ == parse_model(input@),
    {
        let p = Packet { name: String::new(), room: String::new(), data: input.to_owned() };
        proof {
            assert(p@ =~= parse_model(input@));
        }
        p
    }

    /// Serialize this packet onto the wire. This never fails.
    pub fn to_string(&self) -> (r: String)
        ensures
            r@ == serialize_model(self@),
    {
        proof {
            reveal_strlit("%xt%");
            reveal_strlit("%1%0");
            reveal_strlit("%");
        }
        if self.name.as_str().is_empty() {
            return self.data.clone();
        }
        let mut r = "%xt%".to_owned();
        if !self.room.as_str().is_empty() {
            r.append(self.room.as_str());
            r.append("%");
        }
        r.append(self.name.as_str());
        r.append("%1%0");
        r.append(self.data.as_str());
        r.append("%");
        proof {
            assert(r@ =~= serialize_model(self@));
        }
        r
    }
}

impl core::str::FromStr for Packet {
    type Err = ();

    fn from_str(s: &str) -> Result<Packet, ()> {
        Ok(Packet::from_str(s))
    }
}

/// A run of `n` spaces.
pub open spec fn spaces(n: nat) -> Seq<char> {
    Seq::new(n, |i: int| ' ')
}

/// `s` padded on the right with spaces to width `w`.
pub open spec fn pad_to(s: Seq<char>, w: nat) -> Seq<char> {
    if s.len() >= w {
        s
    } else {
        s + spaces((w - s.len()) as nat)
    }
}

/// The first 64 characters of `s`.
pub open spec fn clip64(s: Seq<char>) -> Seq<char> {
    if s.len() <= 64 {
        s
    } else {
        s.subrange(0, 64)
    }
}

/// The one-line description of a packet: the name padded to width 9, ` @ `,
/// the room padded to width 12, and the first 64 characters of the payload
/// between ` ( ` and ` ... )`.
pub open spec fn describe_model(m: PacketModel) -> Seq<char> {
    pad_to(m.name, 9) + seq![' ', '@', ' '] + pad_to(m.room, 12) + seq![' ', '(', ' ']
        + clip64(m.data) + seq![' ', '.', '.', '.', ' ', ')']
}

/// Append `s` to `r`, padded on the right with spaces to width `w`.
fn append_padded(r: &mut String, s: &str, w: usize)
    ensures
        final(r)@ == old(r)@ + pad_to(s@, w as nat),
{
    proof {
        reveal_strlit(" ");
    }
    let n = s.unicode_len();
    r.append(s);
    let mut k = n;
    while k < w
        invariant
            n == s@.len(),
            n <= k,
            k <= w || k == n,
            r@ == old(r)@ + s@ + spaces((k - n) as nat),
        decreases w - k,
    {
        r.append(" ");
        k += 1;
        proof {
            reveal_strlit(" ");
            assert(old(r)@ + s@ + spaces((k - n - 1) as nat) + " "@ =~= old(r)@ + s@ + spaces(
                (k - n) as nat,
            ));
        }
    }
    proof {
        assert(old(r)@ + s@ + spaces(0) =~= old(r)@ + s@);
        assert(r@ =~= old(r)@ + pad_to(s@, w as nat));
    }
}

impl Packet {
    /// A short human-readable description of this packet.
    pub fn debug_string(&self) -> (r: String)
        ensures
            r@ == describe_model(self@),
    {
        proof {
            reveal_strlit(" @ ");
            reveal_strlit(" ( ");
            reveal_strlit(" ... )");
        }
        let mut r = String::new();
        append_padded(&mut r, self.name.as_str(), 9);
        r.append(" @ ");
        append_padded(&mut r, self.room.as_str(), 12);
        r.append(" ( ");
        if self.data.as_str().unicode_len() <= 64 {
            r.append(self.data.as_str());
        } else {
            r.append(self.data.as_str().substring_char(0, 64));
        }
        r.append(" ... )");
        proof {
            assert(r@ =~= describe_model(self@));
        }
        r
    }
}

/// Round trip: serializing a room-less packet with a non-empty
/// word-character name and then parsing the result yields the packet back,
/// as long as the payload neither starts nor ends with `%`.
pub proof fn lemma_packet_round_trip(m: PacketModel)
    requires
        m.name.len() >= 1,
        forall|i: int| 0 <= i < m.name.len() ==> is_word_char(#[trigger] m.name[i]),
        m.room.len() == 0,
        m.data.len() == 0 || (m.data[0] != '%' && m.data[m.data.len() - 1] != '%'),
    ensures
        parse_model(serialize_model(m)) == m,
{
    let s = serialize_model(m);
    let n = m.name.len() as int;
    assert(s =~= xt_prefix() + m.name + xt_marker() + seq!['0'] + m.data + seq!['%']);
    assert(forall|k: int| 4 <= k < 4 + n ==> #[trigger] s[k] == m.name[k - 4]);
    assert(!is_word_char('%'));
    lemma_word_run_len(s, 4, 4 + n);
    assert(packet_name_len(s) == n);
    assert(s.subrange(0, 4) =~= xt_prefix());
    assert(s.subrange(4 + n, 4 + n + 3) =~= xt_marker());
    assert(s[4 + n + 3] == '0');
    assert(packet_matches(s));
    assert(packet_name(s) =~= m.name);
    let p = 4 + n + 4;
    if m.data.len() == 0 {
        assert(s[p] == '%');
        assert(packet_payload_start(s) == p + 1);
        assert(s.subrange(p + 1, s.len() as int) =~= Seq::<char>::empty());
        lemma_trim_pct_len(Seq::<char>::empty(), 0);
        assert(packet_data(s) =~= m.data);
    } else {
        assert(s[p] == m.data[0]);
        assert(packet_payload_start(s) == p);
        assert(s.subrange(p, s.len() as int) =~= m.data + seq!['%']);
        lemma_trim_pct_append(m.data);
        assert(packet_data(s) =~= m.data);
    }
    assert(parse_model(serialize_model(m)) =~= m);
}

/// Passthrough idempotence: text that is not a structured packet parses to
/// the raw packet carrying it verbatim, and that packet serializes back to
/// the same text.
pub proof fn lemma_passthrough_idempotent(t: Seq<char>)
    requires
        !packet_matches(t),
    ensures
        parse_model(t) == (PacketModel { name: Seq::empty(), room: Seq::empty(), data: t }),
        serialize_model(parse_model(t)) == t,
{
}

} // verus!
