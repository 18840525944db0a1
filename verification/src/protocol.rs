//! The chunked text protocol of the GATT service: messages are split into
//! 20-byte packets ended by `END_TAG`, writes are reassembled in a buffer,
//! and fields are separated by `CONCAT_TAG`.
use vstd::prelude::*;
use crate::text::{
    encode_utf8, decode_utf8, valid_utf8, is_ascii_chars, encode_scalar, chars_of, string_from_chars,
    contains_seq, replace_all, split_all, contains_exec, replace_all_exec, split_exec, chars_eq,
    extend_chars, from_utf8_lossy, lossy_utf8, occurs_at,
};

verus! {

/// Field separator of the write protocol.
pub const CONCAT_TAG: &'static str = "%&%";

/// Terminator of a chunked message.
pub const END_TAG: &'static str = "&#&";

/// Size of one BLE packet of the chunked protocol.
pub const CHUNK_SIZE: usize = 20;

pub open spec fn end_tag() -> Seq<char> {
    seq!['&', '#', '&']
}

pub open spec fn concat_tag() -> Seq<char> {
    seq!['%', '&', '%']
}

pub proof fn lemma_tags()
    ensures
        END_TAG@ == end_tag(),
        CONCAT_TAG@ == concat_tag(),
{
    reveal_strlit("&#&");
    reveal_strlit("%&%");
}

/// Consecutive pieces of `n` elements, the last one possibly shorter
/// (the behaviour of `slice::chunks`).
pub open spec fn chunks_of<T>(s: Seq<T>, n: nat) -> Seq<Seq<T>>
    decreases s.len(),
{
    if n == 0 || s.len() == 0 {
        seq![]
    } else if s.len() <= n {
        seq![s]
    } else {
        seq![s.take(n as int)] + chunks_of(s.skip(n as int), n)
    }
}

pub open spec fn views_of(v: Seq<Vec<u8>>) -> Seq<Seq<u8>> {
    v.map_values(|c: Vec<u8>| c@)
}

/// A copy of `data[from..to]`.
pub fn copy_range(data: &[u8], from: usize, to: usize) -> (r: Vec<u8>)
    requires
        from <= to <= data@.len(),
    ensures
        r@ == data@.subrange(from as int, to as int),
{
    let mut r: Vec<u8> = Vec::new();
    let mut k = from;
    while k < to
        invariant
            from <= k <= to,
            to <= data@.len(),
            r@ == data@.subrange(from as int, k as int),
        decreases to - k,
    {
        r.push(data[k]);
        assert(data@.subrange(from as int, k + 1) == data@.subrange(from as int, k as int).push(
            data@[k as int],
        ));
        k = k + 1;
    }
    r
}

/// Splits `data` into pieces of `size` bytes, the last one possibly shorter.
pub fn split_chunks(data: &[u8], size: usize) -> (r: Vec<Vec<u8>>)
    requires
        size > 0,
    ensures
        views_of(r@) == chunks_of(data@, size as nat),
{
    let mut r: Vec<Vec<u8>> = Vec::new();
    let mut pos: usize = 0;
    proof {
        assert(data@.skip(0) =~= data@);
        assert(views_of(r@) =~= seq![]);
        assert(views_of(r@) + chunks_of(data@, size as nat) =~= chunks_of(data@, size as nat));
    }
    while pos < data.len()
        invariant
            size > 0,
            pos <= data@.len(),
            views_of(r@) + chunks_of(data@.skip(pos as int), size as nat) == chunks_of(
                data@,
                size as nat,
            ),
        decreases data@.len() - pos,
    {
        let rest = data.len() - pos;
        let take = if rest <= size { rest } else { size };
        let piece = copy_range(data, pos, pos + take);
        let ghost old_r = r@;
        let ghost tail = data@.skip(pos as int);
        r.push(piece);
        proof {
            assert(views_of(r@) == views_of(old_r).push(piece@));
            if rest <= size {
                assert(tail == piece@);
                assert(data@.skip(pos + take) =~= seq![]);
                assert(chunks_of(tail, size as nat) == seq![tail]);
                assert(views_of(r@) + chunks_of(data@.skip(pos + take), size as nat) =~= views_of(
                    old_r,
                ) + chunks_of(tail, size as nat));
            } else {
                assert(tail.take(size as int) == piece@);
                assert(tail.skip(size as int) =~= data@.skip(pos + take));
                assert(views_of(r@) + chunks_of(data@.skip(pos + take), size as nat) =~= views_of(
                    old_r,
                ) + chunks_of(tail, size as nat));
            }
        }
        pos = pos + take;
    }
    proof {
        assert(data@.skip(pos as int) =~= seq![]);
        assert(views_of(r@) + seq![] =~= views_of(r@));
    }
    r
}

/// The bytes sent for a message: its UTF-8 encoding followed by `END_TAG`.
pub open spec fn framed_bytes(msg: Seq<char>) -> Seq<u8> {
    encode_utf8(msg + end_tag())
}

/// Split a string into chunks of CHUNK_SIZE bytes, appending END_TAG.
pub fn chunk_message(msg: &str) -> (r: Vec<Vec<u8>>)
    ensures
        views_of(r@) == chunks_of(framed_bytes(msg@), CHUNK_SIZE as nat),
{
    let bytes = msg.as_bytes();
    let mut full: Vec<u8> = Vec::new();
    let mut k: usize = 0;
    while k < bytes.len()
        invariant
            k <= bytes@.len(),
            full@ == bytes@.take(k as int),
        decreases bytes@.len() - k,
    {
        full.push(bytes[k]);
        assert(bytes@.take(k as int + 1) == bytes@.take(k as int).push(bytes@[k as int]));
        k = k + 1;
    }
    full.push(38u8);
    full.push(35u8);
    full.push(38u8);
    proof {
        assert(bytes@.take(bytes@.len() as int) == bytes@);
        lemma_encode_utf8_concat(msg@, end_tag());
        lemma_ascii_encoding(end_tag());
        assert(encode_utf8(end_tag()) =~= seq![38u8, 35u8, 38u8]);
        assert(full@ =~= framed_bytes(msg@));
    }
    split_chunks(full.as_slice(), CHUNK_SIZE)
}

/// UTF-8 encoding distributes over concatenation.
pub proof fn lemma_encode_utf8_concat(a: Seq<char>, b: Seq<char>)
    ensures
        encode_utf8(a + b) == encode_utf8(a) + encode_utf8(b),
    decreases a.len(),
{
    if a.len() == 0 {
        assert(a + b =~= b);
        assert(encode_utf8(a) =~= seq![]);
        assert(encode_utf8(a) + encode_utf8(b) =~= encode_utf8(b));
    } else {
        assert((a + b).drop_first() =~= a.drop_first() + b);
        lemma_encode_utf8_concat(a.drop_first(), b);
        assert(encode_utf8(a + b) =~= encode_scalar(a[0] as u32) + encode_utf8(a.drop_first() + b));
    }
}

/// The encoding of ASCII characters is their code, byte by byte.
pub proof fn lemma_ascii_encoding(c: Seq<char>)
    requires
        is_ascii_chars(c),
    ensures
        encode_utf8(c) == Seq::new(c.len(), |i: int| c[i] as u8),
        decode_utf8(encode_utf8(c)) == c,
        valid_utf8(encode_utf8(c)),
{
    vstd::utf8::is_ascii_chars_encode_utf8(c);
    vstd::utf8::encode_utf8_decode_utf8(c);
    vstd::utf8::encode_utf8_valid_utf8(c);
    assert(encode_utf8(c) =~= Seq::new(c.len(), |i: int| c[i] as u8));
}


/// The text of a written packet: its UTF-8 decoding when valid, else the
/// lossy decoding (invalid sequences replaced).
#[verifier::opaque]
pub open spec fn packet_text(chunk: Seq<u8>) -> Seq<char> {
    if valid_utf8(chunk) {
        decode_utf8(chunk)
    } else {
        lossy_utf8(chunk)
    }
}

/// What a write does to the reassembly buffer: the decoded chunk is
/// appended; once the buffer holds `END_TAG`, the whole text with every
/// `END_TAG` removed is the completed message and the buffer starts over.
#[verifier::opaque]
pub open spec fn buffer_step(buf: Seq<char>, chunk: Seq<u8>) -> (Seq<char>, Option<Seq<char>>) {
    let joined = buf + packet_text(chunk);
    if contains_seq(joined, end_tag()) {
        (Seq::empty(), Some(replace_all(joined, end_tag(), Seq::empty())))
    } else {
        (joined, None)
    }
}

/// Reassembly buffer of a chunked write characteristic.
pub struct InputBuffer {
    text: Vec<char>,
}

impl View for InputBuffer {
    type V = Seq<char>;

    closed spec fn view(&self) -> Seq<char> {
        self.text@
    }
}

impl InputBuffer {
    pub fn new() -> (b: InputBuffer)
        ensures
            b@ == Seq::<char>::empty(),
    {
        InputBuffer { text: Vec::new() }
    }

    pub fn is_empty(&self) -> (r: bool)
        ensures
            r == (self@.len() == 0),
    {
        self.text.len() == 0
    }

    /// Drops a partial message (after a period without writes).
    pub fn clear(&mut self)
        ensures
            final(self)@ == Seq::<char>::empty(),
    {
        self.text.clear();
    }

    /// Appends one written packet; returns the completed message once `END_TAG` arrived.
    pub fn push_chunk(&mut self, data: &[u8]) -> (r: Option<String>)
        ensures
            final(self)@ == buffer_step(old(self)@, data@).0,
            r matches Some(m) ==> buffer_step(old(self)@, data@).1 == Some(m@),
            r is None ==> buffer_step(old(self)@, data@).1 is None,
    {
        let chunk = from_utf8_lossy(data);
        let chunk_chars = chars_of(chunk.as_str());
        extend_chars(&mut self.text, chunk_chars.as_slice());
        let tag = chars_of(END_TAG);
        proof {
            lemma_tags();
            reveal(packet_text);
            reveal(buffer_step);
        }
        if contains_exec(self.text.as_slice(), tag.as_slice()) {
            let empty: Vec<char> = Vec::new();
            let full = replace_all_exec(self.text.as_slice(), tag.as_slice(), empty.as_slice());
            self.text.clear();
            Some(string_from_chars(full.as_slice()))
        } else {
            None
        }
    }
}

/// Wi-Fi credentials carried by an input message.
pub struct WifiCredentials {
    pub ssid: String,
    pub password: String,
}

/// Why an input message was refused.
#[derive(Clone, Copy, Debug, PartialEq, Eq)]
pub enum InputRejection {
    /// Fewer fields than the message needs.
    Syntax,
    /// The first field is not the configured key.
    Key,
}

impl InputRejection {
    /// The text notified for the rejection on the chunked characteristics.
    pub fn notice(&self) -> (s: String)
        ensures
            *self is Syntax ==> s@ == "Invalid syntax."@,
            *self is Key ==> s@ == "Invalid key."@,
    {
        match self {
            InputRejection::Syntax => String::from_str("Invalid syntax."),
            InputRejection::Key => String::from_str("Invalid key."),
        }
    }

    /// The text notified for the rejection on the single-packet input characteristic.
    pub fn legacy_notice(&self) -> (s: String)
        ensures
            *self is Syntax ==> s@ == "Wrong input syntax."@,
            *self is Key ==> s@ == "Wrong input key."@,
    {
        match self {
            InputRejection::Syntax => String::from_str("Wrong input syntax."),
            InputRejection::Key => String::from_str("Wrong input key."),
        }
    }
}

/// The fields of a message.
pub open spec fn fields_of(msg: Seq<char>) -> Seq<Seq<char>> {
    split_all(msg, concat_tag())
}

/// Parses `key%&%ssid%&%password`: fields past the third are ignored.
pub fn parse_wifi_input(msg: &str, key: &str) -> (r: Result<WifiCredentials, InputRejection>)
    ensures
        fields_of(msg@).len() < 3 <==> r == Err::<WifiCredentials, InputRejection>(InputRejection::Syntax),
        (fields_of(msg@).len() >= 3 && fields_of(msg@)[0] != key@) <==> r == Err::<WifiCredentials, InputRejection>(
            InputRejection::Key,
        ),
        r matches Ok(c) ==> {
            &&& fields_of(msg@).len() >= 3
            &&& fields_of(msg@)[0] == key@
            &&& c.ssid@ == fields_of(msg@)[1]
            &&& c.password@ == fields_of(msg@)[2]
        },
{
    let text = chars_of(msg);
    let sep = chars_of(CONCAT_TAG);
    proof {
        lemma_tags();
    }
    let parts = split_exec(text.as_slice(), sep.as_slice());
    proof {
        assert(parts@.len() == fields_of(msg@).len());
    }
    if parts.len() < 3 {
        return Err(InputRejection::Syntax);
    }
    let key_chars = chars_of(key);
    assert(parts@[0]@ == fields_of(msg@)[0]);
    if !chars_eq(parts[0].as_slice(), key_chars.as_slice()) {
        return Err(InputRejection::Key);
    }
    assert(parts@[1]@ == fields_of(msg@)[1]);
    assert(parts@[2]@ == fields_of(msg@)[2]);
    Ok(WifiCredentials {
        ssid: string_from_chars(parts[1].as_slice()),
        password: string_from_chars(parts[2].as_slice()),
    })
}


/// The completed messages reported while the packets are written in order,
/// starting from the buffer contents `buf`.
pub open spec fn feed(buf: Seq<char>, packets: Seq<Seq<u8>>) -> Seq<Option<Seq<char>>>
    decreases packets.len(),
{
    if packets.len() == 0 {
        seq![]
    } else {
        let step = buffer_step(buf, packets[0]);
        seq![step.1] + feed(step.0, packets.drop_first())
    }
}

/// Replacing `p` in `x + p` gives back `x` when `p` starts nowhere before the end of `x`.
proof fn lemma_replace_trailing(x: Seq<char>, p: Seq<char>)
    requires
        p.len() > 0,
        forall|i: int| 0 <= i < x.len() ==> !occurs_at(x + p, p, i),
    ensures
        replace_all(x + p, p, Seq::empty()) == x,
    decreases x.len(),
{
    let s = x + p;
    if x.len() == 0 {
        assert(s =~= p);
        assert(s.take(p.len() as int) =~= p);
        assert(s.skip(p.len() as int) =~= Seq::<char>::empty());
        assert(replace_all(Seq::<char>::empty(), p, Seq::empty()) == Seq::<char>::empty());
        assert(Seq::<char>::empty() + Seq::<char>::empty() =~= x);
    } else {
        assert(s.subrange(0, p.len() as int) =~= s.take(p.len() as int));
        assert(!occurs_at(s, p, 0));
        let x2 = x.drop_first();
        assert(s.drop_first() =~= x2 + p);
        assert forall|i: int| 0 <= i < x2.len() implies !occurs_at(x2 + p, p, i) by {
            assert(!occurs_at(s, p, i + 1));
            assert((x2 + p).subrange(i, i + p.len()) =~= s.subrange(i + 1, i + 1 + p.len()));
        }
        lemma_replace_trailing(x2, p);
        assert(s.take(p.len() as int) != p);
        assert(replace_all(s, p, Seq::empty()) == seq![s[0]] + replace_all(s.drop_first(), p, Seq::empty()));
        assert(seq![s[0]] + x2 =~= x);
    }
}

/// Decoding the encoding of an ASCII slice gives the slice back.
proof fn lemma_ascii_piece(f: Seq<char>, m: int, k: int)
    requires
        is_ascii_chars(f),
        0 <= m,
        m + k <= f.len(),
        0 < k,
    ensures
        encode_utf8(f).subrange(m, m + k) == encode_utf8(f.subrange(m, m + k)),
        packet_text(encode_utf8(f).subrange(m, m + k)) == f.subrange(m, m + k),
{
    lemma_ascii_encoding(f);
    let piece = f.subrange(m, m + k);
    assert(is_ascii_chars(piece));
    lemma_ascii_encoding(piece);
    assert(encode_utf8(f).subrange(m, m + k) =~= encode_utf8(piece));
    reveal(packet_text);
}


/// The framed text of an ASCII message is ASCII.
proof fn lemma_framed_ascii(msg: Seq<char>)
    requires
        is_ascii_chars(msg),
    ensures
        is_ascii_chars(msg + end_tag()),
{
    let f = msg + end_tag();
    assert forall|i: int| 0 <= i < f.len() implies '\0' <= #[trigger] f[i] <= '\u{7f}' by {
        if i < msg.len() {
            assert(f[i] == msg[i]);
        }
    }
}

/// The first packet from byte `m` on, and the packets after it.
proof fn lemma_first_packet(f: Seq<char>, m: int, k: int)
    requires
        is_ascii_chars(f),
        0 <= m < f.len(),
        k == (if f.len() - m <= 20 { f.len() - m } else { 20 }),
    ensures
        chunks_of(encode_utf8(f).skip(m), CHUNK_SIZE as nat) == seq![encode_utf8(f).subrange(m, m + k)]
            + chunks_of(encode_utf8(f).skip(m + k), CHUNK_SIZE as nat),
        packet_text(encode_utf8(f).subrange(m, m + k)) == f.subrange(m, m + k),
{
    lemma_ascii_encoding(f);
    let b = encode_utf8(f);
    let rest = b.skip(m);
    let first = b.subrange(m, m + k);
    if f.len() - m <= 20 {
        assert(rest =~= first);
        assert(b.skip(m + k) =~= Seq::<u8>::empty());
        assert(chunks_of(b.skip(m + k), CHUNK_SIZE as nat) =~= Seq::<Seq<u8>>::empty());
        assert(seq![first] + Seq::<Seq<u8>>::empty() =~= seq![first]);
    } else {
        assert(rest.take(20) =~= first);
        assert(rest.skip(20) =~= b.skip(m + 20));
    }
    lemma_ascii_piece(f, m, k);
}

/// No prefix shorter than the framed text holds the terminator.
proof fn lemma_no_early_tag(msg: Seq<char>, j: int)
    requires
        !contains_seq(msg + seq!['&', '#'], end_tag()),
        0 <= j < msg.len() + 3,
    ensures
        !contains_seq((msg + end_tag()).take(j), end_tag()),
{
    let f = msg + end_tag();
    let g = f.take(j);
    if contains_seq(g, end_tag()) {
        let i = choose|i: int| occurs_at(g, end_tag(), i);
        assert(g.subrange(i, i + 3) =~= (msg + seq!['&', '#']).subrange(i, i + 3));
        assert(occurs_at(msg + seq!['&', '#'], end_tag(), i));
    }
}

/// The whole framed text reduces to the message.
proof fn lemma_framed_completes(msg: Seq<char>)
    requires
        !contains_seq(msg + seq!['&', '#'], end_tag()),
    ensures
        contains_seq(msg + end_tag(), end_tag()),
        replace_all(msg + end_tag(), end_tag(), Seq::empty()) == msg,
{
    let f = msg + end_tag();
    assert(occurs_at(f, end_tag(), msg.len() as int)) by {
        assert(f.subrange(msg.len() as int, msg.len() as int + 3) =~= end_tag());
    }
    assert forall|i: int| 0 <= i < msg.len() implies !occurs_at(msg + end_tag(), end_tag(), i) by {
        if occurs_at(f, end_tag(), i) {
            assert(f.subrange(i, i + 3) =~= (msg + seq!['&', '#']).subrange(i, i + 3));
            assert(occurs_at(msg + seq!['&', '#'], end_tag(), i));
        }
    }
    lemma_replace_trailing(msg, end_tag());
}

/// One write that does not complete a message.
proof fn lemma_step_partial(buf: Seq<char>, chunk: Seq<u8>, next: Seq<char>)
    requires
        next == buf + packet_text(chunk),
        !contains_seq(next, end_tag()),
    ensures
        buffer_step(buf, chunk) == (next, None::<Seq<char>>),
{
    reveal(buffer_step);
}

/// One write that completes a message.
proof fn lemma_step_complete(buf: Seq<char>, chunk: Seq<u8>, next: Seq<char>)
    requires
        next == buf + packet_text(chunk),
        contains_seq(next, end_tag()),
    ensures
        buffer_step(buf, chunk) == (Seq::<char>::empty(), Some(replace_all(next, end_tag(), Seq::empty()))),
{
    reveal(buffer_step);
}

proof fn lemma_feed_cons(buf: Seq<char>, packets: Seq<Seq<u8>>)
    requires
        packets.len() > 0,
    ensures
        feed(buf, packets) == seq![buffer_step(buf, packets[0]).1] + feed(
            buffer_step(buf, packets[0]).0,
            packets.drop_first(),
        ),
{
}

/// Packets of the framed text from character `m` on, written into a buffer
/// holding the first `m` characters, complete the message exactly at the last packet.
proof fn lemma_feed_from(msg: Seq<char>, m: int)
    requires
        is_ascii_chars(msg),
        !contains_seq(msg + seq!['&', '#'], end_tag()),
        0 <= m < msg.len() + 3,
    ensures
        ({
            let f = msg + end_tag();
            let outs = feed(f.take(m), chunks_of(encode_utf8(f).skip(m), CHUNK_SIZE as nat));
            &&& outs.len() >= 1
            &&& outs.last() == Some(msg)
            &&& forall|i: int| 0 <= i < outs.len() - 1 ==> outs[i] is None
        }),
    decreases msg.len() + 3 - m,
{
    let f = msg + end_tag();
    let l = f.len() as int;
    lemma_framed_ascii(msg);
    let b = encode_utf8(f);
    let k: int = if l - m <= 20 { l - m } else { 20 };
    lemma_first_packet(f, m, k);
    let first = b.subrange(m, m + k);
    let packets = chunks_of(b.skip(m), CHUNK_SIZE as nat);
    let later = chunks_of(b.skip(m + k), CHUNK_SIZE as nat);
    assert(packets[0] == first);
    assert(packets.drop_first() =~= later);
    let joined = f.take(m) + packet_text(first);
    assert(joined =~= f.take(m + k));
    lemma_feed_cons(f.take(m), packets);
    if m + k < l {
        lemma_no_early_tag(msg, m + k);
        lemma_step_partial(f.take(m), first, joined);
        lemma_feed_from(msg, m + k);
        let tail = feed(f.take(m + k), later);
        assert(feed(f.take(m), packets) == seq![None::<Seq<char>>] + tail);
    } else {
        lemma_feed_last(msg, m);
    }
}

/// The last packet completes the message.
proof fn lemma_feed_last(msg: Seq<char>, m: int)
    requires
        is_ascii_chars(msg),
        !contains_seq(msg + seq!['&', '#'], end_tag()),
        0 <= m < msg.len() + 3,
        msg.len() + 3 - m <= 20,
    ensures
        ({
            let f = msg + end_tag();
            let outs = feed(f.take(m), chunks_of(encode_utf8(f).skip(m), CHUNK_SIZE as nat));
            &&& outs.len() == 1
            &&& outs[0] == Some(msg)
        }),
{
    let f = msg + end_tag();
    let l = f.len() as int;
    lemma_framed_ascii(msg);
    let b = encode_utf8(f);
    let k: int = l - m;
    lemma_first_packet(f, m, k);
    let first = b.subrange(m, m + k);
    let packets = chunks_of(b.skip(m), CHUNK_SIZE as nat);
    let later = chunks_of(b.skip(m + k), CHUNK_SIZE as nat);
    assert(packets.drop_first() =~= later);
    assert(f == f.take(m) + packet_text(first)) by {
        assert(f =~= f.take(m) + f.subrange(m, l));
    }
    let step = buffer_step(f.take(m), first);
    assert(step.1 == Some(msg)) by {
        lemma_framed_completes(msg);
        lemma_step_complete(f.take(m), first, f);
    }
    assert(later.len() == 0) by {
        lemma_ascii_encoding(f);
        assert(b.skip(m + k).len() == 0);
    }
    lemma_feed_cons(f.take(m), packets);
    assert(feed(step.0, later).len() == 0);
}

/// A message framed by `chunk_message` and written packet by packet into an
/// empty reassembly buffer comes out whole with the last packet, and no
/// earlier packet completes a message. This holds for ASCII messages in
/// which `END_TAG` does not already begin before the appended terminator.
pub proof fn law_chunked_message_reassembles(msg: Seq<char>)
    requires
        is_ascii_chars(msg),
        !contains_seq(msg + seq!['&', '#'], end_tag()),
    ensures
        ({
            let outs = feed(Seq::empty(), chunks_of(framed_bytes(msg), CHUNK_SIZE as nat));
            &&& outs.len() >= 1
            &&& outs.last() == Some(msg)
            &&& forall|i: int| 0 <= i < outs.len() - 1 ==> outs[i] is None
        }),
{
    let f = msg + end_tag();
    lemma_feed_from(msg, 0);
    assert(f.take(0) =~= Seq::<char>::empty());
    assert(encode_utf8(f).skip(0) =~= encode_utf8(f));
}


/// Without an occurrence of `p` inside `x`, `x + p + y` does not start with `p`.
proof fn lemma_no_occurrence_start(x: Seq<char>, p: Seq<char>, y: Seq<char>)
    requires
        p.len() > 0,
        x.len() > 0,
        !contains_seq(x + p.drop_last(), p),
    ensures
        (x + p + y).take(p.len() as int) != p,
{
    let q = x + p.drop_last();
    if (x + p + y).take(p.len() as int) == p {
        assert(q.subrange(0, p.len() as int) =~= (x + p + y).take(p.len() as int));
        assert(occurs_at(q, p, 0));
    }
}

/// Dropping the first character keeps `p` out of `x`.
proof fn lemma_no_occurrence_drop(x: Seq<char>, p: Seq<char>)
    requires
        p.len() > 0,
        x.len() > 0,
        !contains_seq(x + p.drop_last(), p),
    ensures
        !contains_seq(x.drop_first() + p.drop_last(), p),
{
    let q = x + p.drop_last();
    let r = x.drop_first() + p.drop_last();
    assert(r =~= q.drop_first());
    assert forall|i: int| !occurs_at(r, p, i) by {
        lemma_occurs_shift(q, p, i);
    }
}

/// An occurrence in the text without its first character is one in the text, one further.
proof fn lemma_occurs_shift(q: Seq<char>, p: Seq<char>, i: int)
    requires
        q.len() > 0,
    ensures
        occurs_at(q.drop_first(), p, i) ==> occurs_at(q, p, i + 1),
{
    if occurs_at(q.drop_first(), p, i) {
        assert(q.drop_first().subrange(i, i + p.len()) =~= q.subrange(i + 1, i + 1 + p.len()));
    }
}

/// Without an occurrence of `p` inside `x`, the text does not start with `p`
/// and dropping the first character keeps that property.
proof fn lemma_no_occurrence_step(x: Seq<char>, p: Seq<char>, y: Seq<char>)
    requires
        p.len() > 0,
        x.len() > 0,
        !contains_seq(x + p.drop_last(), p),
    ensures
        (x + p + y).take(p.len() as int) != p,
        !contains_seq(x.drop_first() + p.drop_last(), p),
        (x + p + y).drop_first() == x.drop_first() + p + y,
{
    lemma_no_occurrence_start(x, p, y);
    lemma_no_occurrence_drop(x, p);
    assert((x + p + y).drop_first() =~= x.drop_first() + p + y);
}

/// Splitting `x + p + y` at `p` gives `x` first when `p` starts nowhere inside `x`.
pub proof fn lemma_split_prefix(x: Seq<char>, p: Seq<char>, y: Seq<char>)
    requires
        p.len() > 0,
        !contains_seq(x + p.drop_last(), p),
    ensures
        split_all(x + p + y, p) == seq![x] + split_all(y, p),
    decreases x.len(),
{
    let s = x + p + y;
    if x.len() == 0 {
        assert(s =~= p + y);
        assert(s.take(p.len() as int) =~= p);
        assert(s.skip(p.len() as int) =~= y);
        assert(x =~= Seq::<char>::empty());
    } else {
        lemma_no_occurrence_step(x, p, y);
        let x2 = x.drop_first();
        lemma_split_prefix(x2, p, y);
        let rest = split_all(s.drop_first(), p);
        assert(rest == seq![x2] + split_all(y, p));
        assert(split_all(s, p) == rest.update(0, seq![s[0]] + rest[0]));
        assert(seq![s[0]] + x2 =~= x);
        assert(rest.update(0, seq![s[0]] + rest[0]) =~= seq![x] + split_all(y, p));
    }
}

/// Text without the separator is a single field.
pub proof fn lemma_split_single(c: Seq<char>, p: Seq<char>)
    requires
        p.len() > 0,
        !contains_seq(c, p),
    ensures
        split_all(c, p) == seq![c],
    decreases c.len(),
{
    if c.len() < p.len() {
    } else {
        assert(c.take(p.len() as int) != p) by {
            if c.take(p.len() as int) == p {
                assert(c.subrange(0, p.len() as int) =~= c.take(p.len() as int));
                assert(occurs_at(c, p, 0));
            }
        }
        let c2 = c.drop_first();
        assert(!contains_seq(c2, p)) by {
            if contains_seq(c2, p) {
                let i = choose|i: int| occurs_at(c2, p, i);
                assert(c2.subrange(i, i + p.len()) =~= c.subrange(i + 1, i + 1 + p.len()));
                assert(occurs_at(c, p, i + 1));
            }
        }
        lemma_split_single(c2, p);
        assert(seq![c[0]] + c2 =~= c);
    }
}

/// A message built as `key%&%ssid%&%password` is parsed back into the same
/// key, SSID and password, provided no field holds the separator (nor ends
/// in a part of it that the separator would complete).
pub proof fn law_wifi_input_fields(key: Seq<char>, ssid: Seq<char>, password: Seq<char>)
    requires
        !contains_seq(key + seq!['%', '&'], concat_tag()),
        !contains_seq(ssid + seq!['%', '&'], concat_tag()),
        !contains_seq(password, concat_tag()),
    ensures
        fields_of(key + concat_tag() + ssid + concat_tag() + password) == seq![key, ssid, password],
{
    let t = concat_tag();
    assert(t.drop_last() =~= seq!['%', '&']);
    lemma_split_single(password, t);
    lemma_split_prefix(ssid, t, password);
    lemma_split_prefix(key, t, ssid + t + password);
    assert(key + t + ssid + t + password =~= key + t + (ssid + t + password));
    assert(seq![key] + (seq![ssid] + seq![password]) =~= seq![key, ssid, password]);
}

/// The pieces joined back together.
pub open spec fn concat_all<T>(pieces: Seq<Seq<T>>) -> Seq<T>
    decreases pieces.len(),
{
    if pieces.len() == 0 {
        seq![]
    } else {
        pieces[0] + concat_all(pieces.drop_first())
    }
}

/// Cutting data into pieces of `n` loses and reorders nothing: the pieces
/// joined give the data back, none is empty or longer than `n`, and all
/// but the last have exactly `n` elements. (With `n` = 20 this is the
/// packet size of the chunked protocol, with 512 that of the SSH tunnel.)
pub proof fn law_chunks_cover<T>(s: Seq<T>, n: nat)
    requires
        n > 0,
    ensures
        concat_all(chunks_of(s, n)) == s,
        forall|i: int| 0 <= i < chunks_of(s, n).len() ==> 0 < #[trigger] chunks_of(s, n)[i].len() <= n,
        forall|i: int| 0 <= i < chunks_of(s, n).len() - 1 ==> #[trigger] chunks_of(s, n)[i].len() == n,
    decreases s.len(),
{
    if s.len() == 0 {
    } else if s.len() <= n {
        assert(chunks_of(s, n) == seq![s]);
        assert(concat_all(seq![s]) == s + concat_all(seq![s].drop_first()));
        assert(seq![s].drop_first() =~= Seq::<Seq<T>>::empty());
        assert(s + Seq::<T>::empty() =~= s);
    } else {
        let rest = s.skip(n as int);
        law_chunks_cover(rest, n);
        let c = chunks_of(s, n);
        assert(c == seq![s.take(n as int)] + chunks_of(rest, n));
        assert(c.drop_first() =~= chunks_of(rest, n));
        assert(s.take(n as int) + rest =~= s);
        assert forall|i: int| 0 <= i < c.len() implies 0 < #[trigger] c[i].len() <= n by {
            if i > 0 {
                assert(c[i] == chunks_of(rest, n)[i - 1]);
            }
        }
        assert forall|i: int| 0 <= i < c.len() - 1 implies #[trigger] c[i].len() == n by {
            if i > 0 {
                assert(c[i] == chunks_of(rest, n)[i - 1]);
            }
        }
    }
}

/// The Wi-Fi configuration message `key%&%ssid%&%password`.
pub open spec fn wifi_message(key: Seq<char>, ssid: Seq<char>, password: Seq<char>) -> Seq<char> {
    key + concat_tag() + ssid + concat_tag() + password
}

/// A Wi-Fi configuration written as the client does (`key%&%ssid%&%password`,
/// framed and cut into 20-byte packets) reaches the parser whole with the
/// last packet, and its fields are the key, SSID and password sent. This
/// holds for ASCII text whose fields hold no separator and in which the
/// terminator does not already begin.
pub proof fn law_wifi_credentials_delivered(key: Seq<char>, ssid: Seq<char>, password: Seq<char>)
    requires
        is_ascii_chars(wifi_message(key, ssid, password)),
        !contains_seq(wifi_message(key, ssid, password) + seq!['&', '#'], end_tag()),
        !contains_seq(key + seq!['%', '&'], concat_tag()),
        !contains_seq(ssid + seq!['%', '&'], concat_tag()),
        !contains_seq(password, concat_tag()),
    ensures
        ({
            let msg = wifi_message(key, ssid, password);
            let outs = feed(Seq::empty(), chunks_of(framed_bytes(msg), CHUNK_SIZE as nat));
            &&& outs.len() >= 1
            &&& outs.last() == Some(msg)
            &&& forall|i: int| 0 <= i < outs.len() - 1 ==> outs[i] is None
            &&& fields_of(msg) == seq![key, ssid, password]
        }),
{
    law_chunked_message_reassembles(wifi_message(key, ssid, password));
    law_wifi_input_fields(key, ssid, password);
}

} // verus!
