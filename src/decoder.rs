//! Incremental UTF-8 decoding of a byte stream that arrives in arbitrary chunks.
//!
//! Bytes that end in the middle of a character are held back until the next
//! chunk completes them; bytes that can never become a character are dropped
//! and counted.
use vstd::prelude::*;
use vstd::utf8::*;

verus! {

/// Width of the well-formed encoding that byte `b` can start (0: none).
pub open spec fn lead_width(b: u8) -> nat {
    if b <= 0x7f {
        1
    } else if 0xc2 <= b <= 0xdf {
        2
    } else if 0xe0 <= b <= 0xef {
        3
    } else if 0xf0 <= b <= 0xf4 {
        4
    } else {
        0
    }
}

/// Whether `b` may follow the lead byte `lead` as the second byte of a
/// well-formed encoding (excluding overlong forms, surrogates and values
/// above U+10FFFF).
pub open spec fn second_ok(lead: u8, b: u8) -> bool {
    if lead == 0xe0 {
        0xa0 <= b <= 0xbf
    } else if lead == 0xed {
        0x80 <= b <= 0x9f
    } else if lead == 0xf0 {
        0x90 <= b <= 0xbf
    } else if lead == 0xf4 {
        0x80 <= b <= 0x8f
    } else {
        is_continuation_byte(b)
    }
}

/// How many leading bytes of `s` agree with some well-formed encoding of a
/// single character (at most the width that its first byte announces).
pub open spec fn good_run(s: Seq<u8>) -> nat {
    if s.len() == 0 || lead_width(s[0]) == 0 {
        0
    } else if lead_width(s[0]) == 1 || s.len() < 2 || !second_ok(s[0], s[1]) {
        1
    } else if lead_width(s[0]) == 2 || s.len() < 3 || !is_continuation_byte(s[2]) {
        2
    } else if lead_width(s[0]) == 3 || s.len() < 4 || !is_continuation_byte(s[3]) {
        3
    } else {
        4
    }
}

/// `s` starts with one complete, well-formed character.
pub open spec fn starts_complete(s: Seq<u8>) -> bool {
    s.len() > 0 && lead_width(s[0]) > 0 && good_run(s) == lead_width(s[0])
}

/// `s` is a proper prefix of a well-formed character: more bytes may complete it.
pub open spec fn is_unfinished(s: Seq<u8>) -> bool {
    s.len() > 0 && good_run(s) == s.len() && s.len() < lead_width(s[0])
}

/// How many bytes are discarded when `s` starts with a malformed sequence.
pub open spec fn drop_len(s: Seq<u8>) -> nat {
    if good_run(s) == 0 {
        1
    } else {
        good_run(s)
    }
}

/// Decoding of a whole buffer: the bytes of the complete characters, in
/// order; how many malformed bytes were discarded; and the unfinished tail
/// that is held back for the next chunk.
pub open spec fn decode_stream(s: Seq<u8>) -> (Seq<u8>, nat, Seq<u8>)
    decreases s.len(),
{
    if s.len() == 0 {
        (seq![], 0, seq![])
    } else if starts_complete(s) {
        let w = lead_width(s[0]) as int;
        let r = decode_stream(s.subrange(w, s.len() as int));
        (s.subrange(0, w) + r.0, r.1, r.2)
    } else if is_unfinished(s) {
        (seq![], 0, s)
    } else {
        let n = drop_len(s) as int;
        let r = decode_stream(s.subrange(n, s.len() as int));
        (r.0, r.1 + drop_len(s), r.2)
    }
}

/// A held-back tail: empty, or the unfinished start of one character.
pub open spec fn is_pending_tail(s: Seq<u8>) -> bool {
    s.len() == 0 || is_unfinished(s)
}


proof fn lemma_width2(b1: u8, b2: u8)
    requires
        0xc0 <= b1 <= 0xdf,
        0x80 <= b2 <= 0xbf,
    ensures
        ((((b1 & 0x1f) as u32) << 6u32) | ((b2 & 0x3f) as u32)) >= 0x80 <==> b1 >= 0xc2,
        ((((b1 & 0x1f) as u32) << 6u32) | ((b2 & 0x3f) as u32)) <= 0x7ff,
{
    assert(((((b1 & 0x1f) as u32) << 6u32) | ((b2 & 0x3f) as u32)) >= 0x80 <==> b1 >= 0xc2)
        by (bit_vector)
        requires
            0xc0 <= b1 <= 0xdf,
            0x80 <= b2 <= 0xbf,
    ;
    assert(((((b1 & 0x1f) as u32) << 6u32) | ((b2 & 0x3f) as u32)) <= 0x7ff) by (bit_vector);
}

proof fn lemma_width3(b1: u8, b2: u8, b3: u8)
    requires
        0xe0 <= b1 <= 0xef,
        0x80 <= b2 <= 0xbf,
        0x80 <= b3 <= 0xbf,
    ensures
        ({
            let c = (((b1 & 0x0f) as u32) << 12u32) | (((b2 & 0x3f) as u32) << 6u32) | ((b3
                & 0x3f) as u32);
            &&& (c >= 0x800 <==> (b1 != 0xe0 || b2 >= 0xa0))
            &&& (!(0xd800 <= c <= 0xdfff) <==> (b1 != 0xed || b2 <= 0x9f))
            &&& c <= 0xffff
        }),
{
    assert((((((b1 & 0x0f) as u32) << 12u32) | (((b2 & 0x3f) as u32) << 6u32) | ((b3
        & 0x3f) as u32)) >= 0x800) <==> (b1 != 0xe0 || b2 >= 0xa0)) by (bit_vector)
        requires
            0xe0 <= b1 <= 0xef,
            0x80 <= b2 <= 0xbf,
            0x80 <= b3 <= 0xbf,
    ;
    assert((!(0xd800 <= ((((b1 & 0x0f) as u32) << 12u32) | (((b2 & 0x3f) as u32) << 6u32) | ((b3
        & 0x3f) as u32)) <= 0xdfff)) <==> (b1 != 0xed || b2 <= 0x9f)) by (bit_vector)
        requires
            0xe0 <= b1 <= 0xef,
            0x80 <= b2 <= 0xbf,
            0x80 <= b3 <= 0xbf,
    ;
    assert(((((b1 & 0x0f) as u32) << 12u32) | (((b2 & 0x3f) as u32) << 6u32) | ((b3
        & 0x3f) as u32)) <= 0xffff) by (bit_vector);
}

proof fn lemma_width4(b1: u8, b2: u8, b3: u8, b4: u8)
    requires
        0xf0 <= b1 <= 0xf7,
        0x80 <= b2 <= 0xbf,
        0x80 <= b3 <= 0xbf,
        0x80 <= b4 <= 0xbf,
    ensures
        ({
            let c = (((b1 & 0x07) as u32) << 18u32) | (((b2 & 0x3f) as u32) << 12u32) | (((b3
                & 0x3f) as u32) << 6u32) | ((b4 & 0x3f) as u32);
            &&& (0x10000 <= c <= 0x10ffff <==> (b1 <= 0xf4 && (b1 != 0xf0 || b2 >= 0x90) && (b1
                != 0xf4 || b2 <= 0x8f)))
            &&& (c >= 0x10000 ==> !(0xd800 <= c <= 0xdfff))
        }),
{
    assert((0x10000 <= ((((b1 & 0x07) as u32) << 18u32) | (((b2 & 0x3f) as u32) << 12u32) | (((b3
        & 0x3f) as u32) << 6u32) | ((b4 & 0x3f) as u32)) <= 0x10ffff) <==> (b1 <= 0xf4 && (b1
        != 0xf0 || b2 >= 0x90) && (b1 != 0xf4 || b2 <= 0x8f))) by (bit_vector)
        requires
            0xf0 <= b1 <= 0xf7,
            0x80 <= b2 <= 0xbf,
            0x80 <= b3 <= 0xbf,
            0x80 <= b4 <= 0xbf,
    ;
}

/// The byte table above agrees with vstd's definition of a well-formed
/// first scalar, in both directions.
pub proof fn lemma_complete_iff_scalar(s: Seq<u8>)
    requires
        s.len() > 0,
    ensures
        starts_complete(s) <==> valid_first_scalar(s),
        starts_complete(s) ==> length_of_first_scalar(s) == lead_width(s[0]),
{
    if s.len() >= 2 && 0xc0 <= s[0] <= 0xdf && is_continuation_byte(s[1]) {
        lemma_width2(s[0], s[1]);
    }
    if s.len() >= 3 && 0xe0 <= s[0] <= 0xef && is_continuation_byte(s[1]) && is_continuation_byte(
        s[2],
    ) {
        lemma_width3(s[0], s[1], s[2]);
    }
    if s.len() >= 4 && 0xf0 <= s[0] <= 0xf7 && is_continuation_byte(s[1]) && is_continuation_byte(
        s[2],
    ) && is_continuation_byte(s[3]) {
        lemma_width4(s[0], s[1], s[2], s[3]);
    }
}


/// The bytes of all `chunks`, in order.
pub open spec fn concat_chunks(chunks: Seq<Seq<u8>>) -> Seq<u8>
    decreases chunks.len(),
{
    if chunks.len() == 0 {
        seq![]
    } else {
        chunks[0] + concat_chunks(chunks.drop_first())
    }
}

/// Feeding `chunks` one after another to a decoder that holds back
/// `pending`: all bytes emitted, all bytes discarded, and the final tail.
pub open spec fn feed_all(pending: Seq<u8>, chunks: Seq<Seq<u8>>) -> (Seq<u8>, nat, Seq<u8>)
    decreases chunks.len(),
{
    if chunks.len() == 0 {
        (seq![], 0, pending)
    } else {
        let a = decode_stream(pending + chunks[0]);
        let b = feed_all(a.2, chunks.drop_first());
        (a.0 + b.0, a.1 + b.1, b.2)
    }
}

/// The text emitted when feeding `chunks` one after another, each feed's
/// text appended to what came before.
pub open spec fn feed_all_text(pending: Seq<u8>, chunks: Seq<Seq<u8>>) -> Seq<char>
    decreases chunks.len(),
{
    if chunks.len() == 0 {
        seq![]
    } else {
        let a = decode_stream(pending + chunks[0]);
        decode_utf8(a.0) + feed_all_text(a.2, chunks.drop_first())
    }
}

/// Decoding `s1 + s2` in one go gives what decoding `s1` gives, followed by
/// what decoding its held-back tail together with `s2` gives.
pub proof fn lemma_decode_split(s1: Seq<u8>, s2: Seq<u8>)
    ensures
        ({
            let a = decode_stream(s1);
            let b = decode_stream(a.2 + s2);
            decode_stream(s1 + s2) == (a.0 + b.0, a.1 + b.1, b.2)
        }),
    decreases s1.len(),
{
    let s = s1 + s2;
    let a = decode_stream(s1);
    if s1.len() == 0 {
        assert(s1 + s2 =~= s2);
        assert(a.2 + s2 =~= s2);
        let b = decode_stream(s2);
        assert(a.0 + b.0 =~= b.0);
    } else if starts_complete(s1) {
        let w = lead_width(s1[0]) as int;
        assert(s[0] == s1[0]);
        assert(good_run(s) == good_run(s1));
        let t1 = s1.subrange(w, s1.len() as int);
        lemma_decode_split(t1, s2);
        assert(s.subrange(w, s.len() as int) =~= t1 + s2);
        assert(s.subrange(0, w) =~= s1.subrange(0, w));
        let r = decode_stream(t1);
        let b = decode_stream(r.2 + s2);
        assert(s1.subrange(0, w) + r.0 + b.0 =~= s1.subrange(0, w) + (r.0 + b.0));
    } else if is_unfinished(s1) {
        let b = decode_stream(s1 + s2);
        assert(a.0 + b.0 =~= b.0);
    } else {
        assert(s[0] == s1[0]);
        assert(good_run(s1) < s1.len());
        assert(good_run(s) == good_run(s1));
        let n = drop_len(s1) as int;
        let t1 = s1.subrange(n, s1.len() as int);
        lemma_decode_split(t1, s2);
        assert(s.subrange(n, s.len() as int) =~= t1 + s2);
    }
}

/// What decoding emits is always well-formed UTF-8, and what it holds back
/// is an unfinished character.
pub proof fn lemma_decode_output_valid(s: Seq<u8>)
    ensures
        valid_utf8(decode_stream(s).0),
        is_pending_tail(decode_stream(s).2),
    decreases s.len(),
{
    reveal_with_fuel(valid_utf8, 2);
    if s.len() > 0 {
        if starts_complete(s) {
            let w = lead_width(s[0]) as int;
            let t = s.subrange(0, w);
            assert(t[0] == s[0]);
            assert(good_run(t) == good_run(s));
            lemma_one_char_valid(t);
            lemma_decode_output_valid(s.subrange(w, s.len() as int));
            valid_utf8_concat(t, decode_stream(s.subrange(w, s.len() as int)).0);
        } else if !is_unfinished(s) {
            lemma_decode_output_valid(s.subrange(drop_len(s) as int, s.len() as int));
        }
    }
}

/// Every input byte is accounted for: it is emitted, discarded or held
/// back, and what is held back is the end of the input.
pub proof fn lemma_decode_accounts_for_every_byte(s: Seq<u8>)
    ensures
        decode_stream(s).0.len() + decode_stream(s).1 + decode_stream(s).2.len() == s.len(),
        decode_stream(s).2 == s.subrange(s.len() - decode_stream(s).2.len(), s.len() as int),
    decreases s.len(),
{
    if s.len() > 0 {
        if starts_complete(s) {
            let w = lead_width(s[0]) as int;
            let t = s.subrange(w, s.len() as int);
            lemma_decode_accounts_for_every_byte(t);
            let k = decode_stream(t).2.len() as int;
            assert(t.subrange(t.len() - k, t.len() as int) == s.subrange(s.len() - k, s.len() as int));
        } else if is_unfinished(s) {
            assert(s.subrange(0, s.len() as int) == s);
        } else {
            let n = drop_len(s) as int;
            let t = s.subrange(n, s.len() as int);
            lemma_decode_accounts_for_every_byte(t);
            let k = decode_stream(t).2.len() as int;
            assert(t.subrange(t.len() - k, t.len() as int) == s.subrange(s.len() - k, s.len() as int));
        }
    }
}

/// Well-formed UTF-8 passes through whole: every byte is emitted, nothing
/// is discarded and nothing is held back.
pub proof fn lemma_valid_input_passes(b: Seq<u8>)
    requires
        valid_utf8(b),
    ensures
        decode_stream(b) == (b, 0nat, Seq::<u8>::empty()),
    decreases b.len(),
{
    if b.len() > 0 {
        lemma_complete_iff_scalar(b);
        let w = lead_width(b[0]) as int;
        let t = b.subrange(w, b.len() as int);
        assert(t == pop_first_scalar(b));
        lemma_valid_input_passes(t);
        assert(b.subrange(0, w) + t =~= b);
    }
}

/// Decoding distributes over concatenation of well-formed UTF-8.
pub proof fn lemma_decode_utf8_concat(a: Seq<u8>, b: Seq<u8>)
    requires
        valid_utf8(a),
        valid_utf8(b),
    ensures
        valid_utf8(a + b),
        decode_utf8(a + b) == decode_utf8(a) + decode_utf8(b),
    decreases a.len(),
{
    valid_utf8_concat(a, b);
    if a.len() == 0 {
        assert(a + b =~= b);
        assert(decode_utf8(a) =~= Seq::<char>::empty());
        assert(decode_utf8(a) + decode_utf8(b) =~= decode_utf8(b));
    } else {
        let rest = pop_first_scalar(a);
        lemma_complete_iff_scalar(a);
        lemma_complete_iff_scalar(a + b);
        assert((a + b)[0] == a[0]);
        assert(good_run(a + b) == good_run(a));
        assert(pop_first_scalar(a + b) =~= rest + b);
        lemma_decode_utf8_concat(rest, b);
        assert(decode_first_scalar(a + b) == decode_first_scalar(a));
        assert(seq![decode_first_scalar(a) as char] + (decode_utf8(rest) + decode_utf8(b))
            =~= seq![decode_first_scalar(a) as char] + decode_utf8(rest) + decode_utf8(b));
    }
}

/// Chunk invariance: feeding the chunks one after another, from a decoder
/// that holds back an unfinished character (or nothing), emits the same
/// bytes, discards the same bytes and holds back the same tail as feeding
/// all of them at once.
pub proof fn lemma_chunking_invariant(pending: Seq<u8>, chunks: Seq<Seq<u8>>)
    requires
        is_pending_tail(pending),
    ensures
        feed_all(pending, chunks) == decode_stream(pending + concat_chunks(chunks)),
        feed_all_text(pending, chunks) == decode_utf8(feed_all(pending, chunks).0),
    decreases chunks.len(),
{
    if chunks.len() == 0 {
        assert(pending + concat_chunks(chunks) =~= pending);
        assert(decode_utf8(Seq::<u8>::empty()) =~= Seq::<char>::empty());
    } else {
        let a = decode_stream(pending + chunks[0]);
        let rest = chunks.drop_first();
        lemma_decode_output_valid(pending + chunks[0]);
        lemma_chunking_invariant(a.2, rest);
        lemma_decode_split(pending + chunks[0], concat_chunks(rest));
        assert(pending + chunks[0] + concat_chunks(rest) =~= pending + concat_chunks(chunks));
        lemma_decode_output_valid(a.2 + concat_chunks(rest));
        lemma_decode_utf8_concat(a.0, feed_all(a.2, rest).0);
    }
}

/// For well-formed UTF-8 split into any chunks, the text emitted feed by
/// feed is exactly the text of the whole input, with nothing discarded and
/// nothing left over.
pub proof fn lemma_chunked_valid_text(chunks: Seq<Seq<u8>>)
    requires
        valid_utf8(concat_chunks(chunks)),
    ensures
        feed_all_text(Seq::<u8>::empty(), chunks) == decode_utf8(concat_chunks(chunks)),
        feed_all(Seq::<u8>::empty(), chunks).1 == 0,
        feed_all(Seq::<u8>::empty(), chunks).2.len() == 0,
{
    lemma_chunking_invariant(Seq::<u8>::empty(), chunks);
    assert(Seq::<u8>::empty() + concat_chunks(chunks) =~= concat_chunks(chunks));
    lemma_valid_input_passes(concat_chunks(chunks));
}

/// A well-formed character on its own is valid UTF-8.
proof fn lemma_one_char_valid(t: Seq<u8>)
    requires
        starts_complete(t),
        t.len() == lead_width(t[0]),
    ensures
        valid_utf8(t),
{
    lemma_complete_iff_scalar(t);
    reveal_with_fuel(valid_utf8, 2);
    assert(pop_first_scalar(t).len() == 0);
}

/// What one call of `Utf8Decoder::feed` produced.
pub struct Decoded {
    /// The text of the complete characters, or `None` when there were none.
    pub text: Option<String>,
    /// How many malformed bytes were discarded.
    pub dropped: usize,
}

/// Stateful decoder: holds back the unfinished tail of a character between
/// chunks.
pub struct Utf8Decoder {
    pending: Vec<u8>,
}

impl View for Utf8Decoder {
    type V = Seq<u8>;

    closed spec fn view(&self) -> Seq<u8> {
        self.pending@
    }
}

/// Relies on `String::from_utf8`: on well-formed UTF-8 it succeeds and the
/// string holds exactly the characters that the bytes encode.
#[verifier::external_body]
fn string_from_utf8(b: Vec<u8>) -> (r: String)
    requires
        valid_utf8(b@),
    ensures
        r@ == decode_utf8(b@),
{
    String::from_utf8(b).unwrap_or_default()
}

fn lead_width_of(b: u8) -> (r: usize)
    ensures
        r == lead_width(b),
{
    if b <= 0x7f {
        1
    } else if 0xc2 <= b && b <= 0xdf {
        2
    } else if 0xe0 <= b && b <= 0xef {
        3
    } else if 0xf0 <= b && b <= 0xf4 {
        4
    } else {
        0
    }
}

fn second_ok_exec(lead: u8, b: u8) -> (r: bool)
    ensures
        r == second_ok(lead, b),
{
    if lead == 0xe0 {
        0xa0 <= b && b <= 0xbf
    } else if lead == 0xed {
        0x80 <= b && b <= 0x9f
    } else if lead == 0xf0 {
        0x90 <= b && b <= 0xbf
    } else if lead == 0xf4 {
        0x80 <= b && b <= 0x8f
    } else {
        0x80 <= b && b <= 0xbf
    }
}

fn good_run_at(buf: &Vec<u8>, i: usize) -> (r: usize)
    requires
        i < buf.len(),
    ensures
        r == good_run(buf@.subrange(i as int, buf@.len() as int)),
        r <= buf.len() - i,
{
    let ghost s = buf@.subrange(i as int, buf@.len() as int);
    let w = lead_width_of(buf[i]);
    let n = buf.len() - i;
    if w == 0 {
        0
    } else if w == 1 || n < 2 || !second_ok_exec(buf[i], buf[i + 1]) {
        1
    } else if w == 2 || n < 3 || !(0x80 <= buf[i + 2] && buf[i + 2] <= 0xbf) {
        2
    } else if w == 3 || n < 4 || !(0x80 <= buf[i + 3] && buf[i + 3] <= 0xbf) {
        3
    } else {
        4
    }
}

impl Utf8Decoder {
    /// The decoder's invariant: what it holds back is an unfinished character.
    pub open spec fn wf(&self) -> bool {
        is_pending_tail(self@)
    }

    /// A decoder with nothing held back.
    pub fn new() -> (r: Utf8Decoder)
        ensures
            r@ == Seq::<u8>::empty(),
            r.wf(),
    {
        Utf8Decoder { pending: Vec::new() }
    }

    /// The bytes held back, waiting for the rest of their character.
    pub fn pending_len(&self) -> (r: usize)
        ensures
            r == self@.len(),
    {
        self.pending.len()
    }

    /// Appends `bytes` to what was held back and emits every complete
    /// character at once; malformed bytes are discarded and counted, and the
    /// unfinished tail is kept for the next call.
    pub fn feed(&mut self, bytes: &[u8]) -> (r: Decoded)
        requires
            old(self).wf(),
        ensures
            final(self).wf(),
            final(self)@.len() < 4,
            ({
                let d = decode_stream(old(self)@ + bytes@);
                &&& final(self)@ == d.2
                &&& r.dropped == d.1
                &&& (r.text is None <==> d.0.len() == 0)
                &&& (r.text matches Some(t) ==> t@ == decode_utf8(d.0))
            }),
    {
        let mut buf: Vec<u8> = Vec::new();
        let mut j: usize = 0;
        while j < self.pending.len()
            invariant
                j <= self.pending.len(),
                buf@ == self.pending@.subrange(0, j as int),
            decreases self.pending.len() - j,
        {
            buf.push(self.pending[j]);
            j += 1;
        }
        j = 0;
        while j < bytes.len()
            invariant
                j <= bytes.len(),
                buf@ == self.pending@ + bytes@.subrange(0, j as int),
            decreases bytes.len() - j,
        {
            buf.push(bytes[j]);
            j += 1;
        }
        assert(bytes@.subrange(0, bytes@.len() as int) == bytes@);
        assert(buf@ == old(self)@ + bytes@);
        assert(buf@.subrange(0, buf@.len() as int) == buf@);

        let mut out: Vec<u8> = Vec::new();
        let mut dropped: usize = 0;
        let mut i: usize = 0;
        let mut held = false;
        while i < buf.len() && !held
            invariant
                i <= buf.len(),
                dropped <= i,
                valid_utf8(out@),
                held ==> is_unfinished(buf@.subrange(i as int, buf@.len() as int)),
                ({
                    let whole = decode_stream(buf@);
                    let rest = decode_stream(buf@.subrange(i as int, buf@.len() as int));
                    &&& whole.0 == out@ + rest.0
                    &&& whole.1 == dropped + rest.1
                    &&& whole.2 == rest.2
                }),
            decreases buf.len() - i + (if held { 0int } else { 1int }),
        {
            let ghost s = buf@.subrange(i as int, buf@.len() as int);
            let ghost out0 = out@;
            let g = good_run_at(&buf, i);
            let w = lead_width_of(buf[i]);
            if w > 0 && g == w {
                let ghost t = s.subrange(0, w as int);
                proof {
                    assert(t[0] == s[0]);
                    assert(good_run(t) == good_run(s));
                    lemma_one_char_valid(t);
                    valid_utf8_concat(out0, t);
                    assert(s.subrange(w as int, s.len() as int) == buf@.subrange(
                        i + w,
                        buf@.len() as int,
                    ));
                }
                let mut k: usize = 0;
                while k < w
                    invariant
                        k <= w,
                        i + w <= buf.len(),
                        out@ == out0 + buf@.subrange(i as int, i + k),
                    decreases w - k,
                {
                    out.push(buf[i + k]);
                    proof {
                        assert(buf@.subrange(i as int, i + k + 1) == buf@.subrange(i as int, i + k)
                            .push(buf@[i + k]));
                    }
                    k += 1;
                }
                assert(buf@.subrange(i as int, i + w) == t);
                assert(out0 + (t + decode_stream(s.subrange(w as int, s.len() as int)).0) == out@
                    + decode_stream(s.subrange(w as int, s.len() as int)).0);
                i += w;
            } else if g == buf.len() - i && g < w {
                held = true;
            } else {
                let n = if g == 0 {
                    1
                } else {
                    g
                };
                proof {
                    assert(s.subrange(n as int, s.len() as int) == buf@.subrange(
                        i + n,
                        buf@.len() as int,
                    ));
                }
                dropped += n;
                i += n;
            }
        }
        let ghost rest = buf@.subrange(i as int, buf@.len() as int);
        assert(out@ + seq![] == out@);
        let mut tail: Vec<u8> = Vec::new();
        let mut k: usize = i;
        while k < buf.len()
            invariant
                i <= k <= buf.len(),
                tail@ == buf@.subrange(i as int, k as int),
            decreases buf.len() - k,
        {
            tail.push(buf[k]);
            proof {
                assert(buf@.subrange(i as int, k + 1) == buf@.subrange(i as int, k as int).push(
                    buf@[k as int],
                ));
            }
            k += 1;
        }
        self.pending = tail;
        let text = if out.len() == 0 {
            None
        } else {
            Some(string_from_utf8(out))
        };
        Decoded { text, dropped }
    }
}

} // verus!
