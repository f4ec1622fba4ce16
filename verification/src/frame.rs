use vstd::prelude::*;
use vstd::string::*;
use vstd::utf8::*;

verus! {

/// Byte that opens (and closes) every frame on the wire.
pub const FLAG: u8 = 0x7e;

/// Byte that announces an escaped byte.
pub const ESCAPE: u8 = 0x7d;

/// Second byte of an escaped `ESCAPE`.
pub const ESCAPED_ESCAPE: u8 = 0x5d;

/// Second byte of an escaped `FLAG`.
pub const ESCAPED_FLAG: u8 = 0x5e;

/// The wire form of one content byte.
pub open spec fn escape_byte(b: u8) -> Seq<u8> {
    if b == FLAG {
        seq![ESCAPE, ESCAPED_FLAG]
    } else if b == ESCAPE {
        seq![ESCAPE, ESCAPED_ESCAPE]
    } else {
        seq![b]
    }
}

/// The wire form of a content: each byte escaped in turn.
pub open spec fn escape(content: Seq<u8>) -> Seq<u8>
    decreases content.len(),
{
    if content.len() == 0 {
        seq![]
    } else {
        escape(content.drop_last()) + escape_byte(content.last())
    }
}

/// The bytes a frame with the given content is sent as: a flag, then the
/// escaped content.
pub open spec fn encode(content: Seq<u8>) -> Seq<u8> {
    seq![FLAG] + escape(content)
}

/// State of the decoder: frames completed so far, whether an `ESCAPE` is
/// pending, and the bytes of the frame being read.
pub type DecodeState = (Seq<Seq<u8>>, bool, Seq<u8>);

/// What the decoder does with one input byte.
///
/// A flag closes a non-empty frame; an `ESCAPE` is remembered; the two escape
/// suffixes yield the escaped byte after an `ESCAPE` and are dropped
/// otherwise; any other byte is content.
pub open spec fn decode_step(st: DecodeState, b: u8) -> DecodeState {
    let (frames, escaped, current) = st;
    if b == FLAG {
        if current.len() > 0 {
            (frames.push(current), escaped, Seq::empty())
        } else {
            st
        }
    } else if b == ESCAPE {
        (frames, true, current)
    } else if b == ESCAPED_ESCAPE {
        if escaped {
            (frames, false, current.push(ESCAPE))
        } else {
            st
        }
    } else if b == ESCAPED_FLAG {
        if escaped {
            (frames, false, current.push(FLAG))
        } else {
            st
        }
    } else {
        (frames, escaped, current.push(b))
    }
}

/// The decoder state after reading `input` from `st`.
pub open spec fn decode_run(st: DecodeState, input: Seq<u8>) -> DecodeState
    decreases input.len(),
{
    if input.len() == 0 {
        st
    } else {
        decode_step(decode_run(st, input.drop_last()), input.last())
    }
}

/// The frame contents that `Frame::parse_sequence` yields for `input` read
/// after the unfinished bytes `existing`: a frame still open at the end of the
/// input is yielded as well.
pub open spec fn parse_contents(input: Seq<u8>, existing: Seq<u8>) -> Seq<Seq<u8>> {
    let (frames, _escaped, current) = decode_run((Seq::empty(), false, existing), input);
    if current.len() > 0 {
        frames.push(current)
    } else {
        frames
    }
}

/// Content that the decoder gives back unchanged: it holds neither of the two
/// escape suffixes, which the decoder drops where no `ESCAPE` precedes them.
pub open spec fn transparent(content: Seq<u8>) -> bool {
    forall|i: int| 0 <= i < content.len() ==> content[i] != ESCAPED_ESCAPE && content[i]
        != ESCAPED_FLAG
}

/// The bytes a sequence of frames is sent as, one after the other.
pub open spec fn encode_all(frames: Seq<Seq<u8>>) -> Seq<u8>
    decreases frames.len(),
{
    if frames.len() == 0 {
        seq![]
    } else {
        encode_all(frames.drop_last()) + encode(frames.last())
    }
}

/// Decoding two inputs one after the other is decoding their concatenation.
pub proof fn lemma_decode_run_concat(st: DecodeState, a: Seq<u8>, b: Seq<u8>)
    ensures
        decode_run(st, a + b) == decode_run(decode_run(st, a), b),
    decreases b.len(),
{
    if b.len() == 0 {
        assert(a + b =~= a);
    } else {
        assert((a + b).drop_last() =~= a + b.drop_last());
        assert((a + b).last() == b.last());
        lemma_decode_run_concat(st, a, b.drop_last());
    }
}

/// Decoding the escaped form of transparent content, with no escape pending,
/// appends exactly that content to the open frame.
proof fn lemma_decode_escaped(frames: Seq<Seq<u8>>, current: Seq<u8>, content: Seq<u8>)
    requires
        transparent(content),
    ensures
        decode_run((frames, false, current), escape(content)) == (frames, false, current + content),
    decreases content.len(),
{
    if content.len() == 0 {
        assert(current + content =~= current);
    } else {
        let init = content.drop_last();
        let b = content.last();
        assert(transparent(init));
        lemma_decode_escaped(frames, current, init);
        lemma_decode_run_concat((frames, false, current), escape(init), escape_byte(b));
        let mid: DecodeState = (frames, false, current + init);
        let eb = escape_byte(b);
        if b == FLAG || b == ESCAPE {
            assert(eb.drop_last() =~= seq![ESCAPE]);
            assert(eb.drop_last().drop_last() =~= Seq::<u8>::empty());
            assert(decode_run(mid, eb.drop_last().drop_last()) == mid);
            assert(decode_run(mid, eb.drop_last()) == decode_step(mid, ESCAPE));
        } else {
            assert(eb.drop_last() =~= Seq::<u8>::empty());
            assert(decode_run(mid, eb.drop_last()) == mid);
        }
        assert(decode_run(mid, eb) == decode_step(decode_run(mid, eb.drop_last()), eb.last()));
        assert(current + init + seq![b] =~= current + content);
        assert((current + init).push(b) =~= current + content);
    }
}

/// Decoding the bytes of a non-empty sequence of non-empty transparent frames
/// completes all of them but the last, which stays open.
proof fn lemma_decode_encode_all(done: Seq<Seq<u8>>, frames: Seq<Seq<u8>>)
    requires
        frames.len() > 0,
        forall|k: int| 0 <= k < frames.len() ==> frames[k].len() > 0 && transparent(#[trigger] frames[k]),
    ensures
        decode_run((done, false, Seq::empty()), encode_all(frames)) == (
            done + frames.drop_last(),
            false,
            frames.last(),
        ),
    decreases frames.len(),
{
    let last = frames.last();
    let init = frames.drop_last();
    assert(transparent(frames[frames.len() - 1]));
    assert(encode(last) == seq![FLAG] + escape(last));
    let flag_only: Seq<u8> = seq![FLAG];
    assert(flag_only.drop_last() =~= Seq::<u8>::empty());
    if frames.len() == 1 {
        assert(init =~= Seq::<Seq<u8>>::empty());
        assert(encode_all(init) =~= Seq::<u8>::empty());
        assert(encode_all(frames) =~= encode(last));
        let st0: DecodeState = (done, false, Seq::empty());
        lemma_decode_run_concat(st0, flag_only, escape(last));
        assert(decode_run(st0, flag_only.drop_last()) == st0);
        assert(decode_run(st0, flag_only) == st0);
        lemma_decode_escaped(done, Seq::empty(), last);
        assert(Seq::<u8>::empty() + last =~= last);
        assert(done + init =~= done);
    } else {
        assert forall|k: int| 0 <= k < init.len() implies init[k].len() > 0 && transparent(
            #[trigger] init[k],
        ) by {
            assert(init[k] == frames[k]);
        }
        lemma_decode_encode_all(done, init);
        let st0: DecodeState = (done, false, Seq::<u8>::empty());
        assert(encode_all(frames) == encode_all(init) + encode(last));
        lemma_decode_run_concat(st0, encode_all(init), encode(last));
        let st1 = decode_run(st0, encode_all(init));
        assert(st1 == (done + init.drop_last(), false, init.last()));
        lemma_decode_run_concat(st1, flag_only, escape(last));
        assert(init.last().len() > 0) by {
            assert(init.last() == frames[frames.len() - 2]);
        }
        assert(decode_run(st1, flag_only.drop_last()) == st1);
        let st2: DecodeState = ((done + init.drop_last()).push(init.last()), false, Seq::<u8>::empty());
        assert(decode_run(st1, flag_only) == st2);
        assert((done + init.drop_last()).push(init.last()) =~= done + init);
        lemma_decode_escaped(done + init, Seq::empty(), last);
        assert(Seq::<u8>::empty() + last =~= last);
    }
}

/// Reading the bytes of any sequence of non-empty transparent frames gives
/// back exactly those frames.
pub proof fn lemma_parse_encoded_frames(frames: Seq<Seq<u8>>)
    requires
        forall|k: int| 0 <= k < frames.len() ==> frames[k].len() > 0 && transparent(#[trigger] frames[k]),
    ensures
        parse_contents(encode_all(frames), Seq::empty()) == frames,
{
    if frames.len() == 0 {
        assert(encode_all(frames) =~= Seq::<u8>::empty());
    } else {
        lemma_decode_encode_all(Seq::empty(), frames);
        assert(frames.len() > 0 ==> frames.last() == frames[frames.len() - 1]);
        assert((Seq::<Seq<u8>>::empty() + frames.drop_last()).push(frames.last()) =~= frames);
    }
}

/// Reading the bytes of one non-empty transparent frame gives back exactly
/// that frame.
pub proof fn lemma_parse_encoded_frame(content: Seq<u8>)
    requires
        content.len() > 0,
        transparent(content),
    ensures
        parse_contents(encode(content), Seq::empty()) == seq![content],
{
    let frames = seq![content];
    assert(frames.drop_last() =~= Seq::<Seq<u8>>::empty());
    assert(encode_all(frames.drop_last()) =~= Seq::<u8>::empty());
    assert(encode_all(frames) =~= encode(content));
    lemma_parse_encoded_frames(frames);
}

/// The bytes a frame is sent as, byte by byte: an empty frame is a lone
/// flag, and each further content byte adds `0x7d 0x5e` for `0x7e`,
/// `0x7d 0x5d` for `0x7d`, and itself for any other byte, whatever the
/// bytes before it.
pub proof fn lemma_encode_byte_by_byte(content: Seq<u8>, b: u8)
    ensures
        encode(Seq::empty()) == seq![0x7eu8],
        encode(content.push(b)) == encode(content) + if b == 0x7e {
            seq![0x7du8, 0x5eu8]
        } else if b == 0x7d {
            seq![0x7du8, 0x5du8]
        } else {
            seq![b]
        },
{
    assert(escape(Seq::<u8>::empty()) =~= Seq::<u8>::empty());
    assert(encode(Seq::empty()) =~= seq![0x7eu8]);
    assert(content.push(b).drop_last() =~= content);
    assert(content.push(b).last() == b);
    assert(encode(content.push(b)) =~= encode(content) + escape_byte(b));
}

/// The bytes of a frame have one byte for the flag, one for each content
/// byte, and one more for each `0x7e` or `0x7d` among them.
pub proof fn lemma_encode_length(content: Seq<u8>)
    ensures
        encode(content).len() == 1 + content.len() + content.filter(
            |x: u8| x == 0x7e || x == 0x7d,
        ).len(),
    decreases content.len(),
{
    if content.len() == 0 {
        assert(content.filter(|x: u8| x == 0x7e || x == 0x7d) =~= Seq::<u8>::empty());
        lemma_encode_byte_by_byte(content, 0);
    } else {
        let init = content.drop_last();
        let b = content.last();
        lemma_encode_length(init);
        lemma_encode_byte_by_byte(init, b);
        assert(init.push(b) =~= content);
        init.lemma_filter_push(b, |x: u8| x == 0x7e || x == 0x7d);
    }
}

/// The pieces of `input` between flags, the first one after `existing`:
/// `existing + input` split at every `FLAG`.
pub open spec fn flag_pieces(existing: Seq<u8>, input: Seq<u8>) -> Seq<Seq<u8>>
    decreases input.len(),
{
    if input.len() == 0 {
        seq![existing]
    } else {
        let prev = flag_pieces(existing, input.drop_last());
        if input.last() == FLAG {
            prev.push(Seq::empty())
        } else {
            prev.update(prev.len() - 1, prev.last().push(input.last()))
        }
    }
}

/// The non-empty ones of `pieces`, in order.
pub open spec fn non_empty(pieces: Seq<Seq<u8>>) -> Seq<Seq<u8>>
    decreases pieces.len(),
{
    if pieces.len() == 0 {
        seq![]
    } else if pieces.last().len() > 0 {
        non_empty(pieces.drop_last()).push(pieces.last())
    } else {
        non_empty(pieces.drop_last())
    }
}

/// Input without escapes: no `ESCAPE` and no escape suffix.
pub open spec fn unescaped(input: Seq<u8>) -> bool {
    forall|i: int|
        0 <= i < input.len() ==> input[i] != ESCAPE && input[i] != ESCAPED_ESCAPE && input[i]
            != ESCAPED_FLAG
}

/// On input without escapes, the decoder has completed the non-empty pieces
/// before the last flag, and reads the last piece.
proof fn lemma_decode_unescaped(existing: Seq<u8>, input: Seq<u8>)
    requires
        unescaped(input),
    ensures
        flag_pieces(existing, input).len() > 0,
        decode_run((Seq::empty(), false, existing), input) == (
            non_empty(flag_pieces(existing, input).drop_last()),
            false,
            flag_pieces(existing, input).last(),
        ),
    decreases input.len(),
{
    let pieces = flag_pieces(existing, input);
    if input.len() == 0 {
        assert(pieces.drop_last() =~= Seq::<Seq<u8>>::empty());
    } else {
        let init = input.drop_last();
        let b = input.last();
        assert(unescaped(init)) by {
            assert forall|i: int| 0 <= i < init.len() implies init[i] != ESCAPE && init[i]
                != ESCAPED_ESCAPE && init[i] != ESCAPED_FLAG by {
                assert(init[i] == input[i]);
            }
        }
        assert(b == input[input.len() - 1]);
        lemma_decode_unescaped(existing, init);
        let prev = flag_pieces(existing, init);
        if b == FLAG {
            assert(pieces.drop_last() =~= prev);
            if prev.last().len() > 0 {
                assert(prev =~= prev.drop_last().push(prev.last()));
            }
        } else {
            assert(pieces.drop_last() =~= prev.drop_last());
        }
    }
}

/// On input without escapes, `parse_sequence` yields the non-empty pieces of
/// `existing + input` split at every flag, and hands nothing back.
pub proof fn lemma_parse_unescaped(input: Seq<u8>, existing: Seq<u8>)
    requires
        unescaped(input),
    ensures
        parse_contents(input, existing) == non_empty(flag_pieces(existing, input)),
{
    lemma_decode_unescaped(existing, input);
    let pieces = flag_pieces(existing, input);
    assert(pieces =~= pieces.drop_last().push(pieces.last()));
}

/// A unit of data on the wire: a sequence of bytes, sent byte-stuffed between
/// flags.
#[derive(Debug)]
pub struct Frame {
    content: Vec<u8>,
}

impl Clone for Frame {
    fn clone(&self) -> (copy: Frame)
        ensures
            copy@ == self@,
    {
        let content = self.content.clone();
        assert(content@ =~= self.content@);
        Frame { content }
    }
}

impl View for Frame {
    type V = Seq<u8>;

    closed spec fn view(&self) -> Seq<u8> {
        self.content@
    }
}

/// The contents of a sequence of frames.
pub open spec fn contents(frames: Seq<Frame>) -> Seq<Seq<u8>> {
    frames.map_values(|f: Frame| f@)
}

/// Turns bytes into the `String` they encode, where they are valid UTF-8.
///
/// Calls `String::from_utf8`; claims that it succeeds exactly on valid UTF-8
/// and then holds the characters that the bytes encode.
#[verifier::external_body]
fn string_from_utf8(bytes: Vec<u8>) -> (text: Option<String>)
    ensures
        text is Some <==> valid_utf8(bytes@),
        text matches Some(t) ==> t@ == decode_utf8(bytes@),
{
    String::from_utf8(bytes).ok()
}

impl Frame {
    /// A frame with the given content.
    pub fn new(content: Vec<u8>) -> (frame: Frame)
        ensures
            frame@ == content@,
    {
        Frame { content }
    }

    /// Makes a frame of the collected bytes `temp`; this never fails.
    pub fn parse(temp: &Vec<u8>) -> (res: Result<Frame, ()>)
        ensures
            res matches Ok(frame) && frame@ == temp@,
    {
        let content = temp.clone();
        assert(content@ =~= temp@);
        Ok(Frame::new(content))
    }

    /// Splits received bytes into frames.
    ///
    /// `existing` holds bytes of a frame that an earlier call left unfinished;
    /// they start the first frame. A frame still open when `seq` ends is
    /// returned as a frame too, so the bytes handed back for the next call are
    /// always empty. An escape pending at the end of `seq` is forgotten.
    pub fn parse_sequence(seq: &[u8], existing: Option<Vec<u8>>) -> (res: (Vec<Frame>, Vec<u8>))
        ensures
            contents(res.0@) == parse_contents(
                seq@,
                match existing {
                    Some(e) => e@,
                    None => Seq::empty(),
                },
            ),
            res.1@ == Seq::<u8>::empty(),
    {
        let mut parsed: Vec<Frame> = Vec::new();
        let mut escaped = false;
        let mut temp: Vec<u8> = match existing {
            Some(e) => e,
            None => Vec::new(),
        };
        let ghost init: DecodeState = (Seq::empty(), false, temp@);
        assert(contents(parsed@) =~= Seq::<Seq<u8>>::empty());
        assert(seq@.take(0) =~= Seq::<u8>::empty());
        let mut i: usize = 0;
        while i < seq.len()
            invariant
                i <= seq@.len(),
                init == (Seq::<Seq<u8>>::empty(), false, match existing {
                    Some(e) => e@,
                    None => Seq::<u8>::empty(),
                }),
                (contents(parsed@), escaped, temp@) == decode_run(init, seq@.take(i as int)),
            decreases seq@.len() - i,
        {
            let ch = seq[i];
            assert(seq@.take(i + 1).drop_last() =~= seq@.take(i as int));
            assert(seq@.take(i + 1).last() == ch);
            let ghost before = contents(parsed@);
            if ch == FLAG {
                if temp.len() > 0 {
                    match Self::parse(&temp) {
                        Ok(frame) => {
                            parsed.push(frame);
                            assert(contents(parsed@) =~= before.push(temp@));
                        },
                        Err(_) => {},
                    }
                    temp.clear();
                    assert(temp@ =~= Seq::<u8>::empty());
                }
            } else if ch == ESCAPE {
                escaped = true;
            } else if ch == ESCAPED_ESCAPE {
                if escaped {
                    temp.push(ESCAPE);
                    escaped = false;
                }
            } else if ch == ESCAPED_FLAG {
                if escaped {
                    temp.push(FLAG);
                    escaped = false;
                }
            } else {
                temp.push(ch);
            }
            i += 1;
        }
        assert(seq@.take(seq@.len() as int) =~= seq@);
        if temp.len() > 0 {
            let ghost before = contents(parsed@);
            if let Ok(frame) = Self::parse(&temp) {
                parsed.push(frame);
                assert(contents(parsed@) =~= before.push(temp@));
                temp.clear();
            }
        }
        assert(temp@ =~= Seq::<u8>::empty());
        (parsed, temp)
    }

    /// A frame holding the UTF-8 bytes of `value`.
    pub fn from_string(value: String) -> (frame: Frame)
        ensures
            frame@ == encode_utf8(value@),
    {
        Frame { content: value.as_str().as_bytes_vec() }
    }

    /// A frame holding the UTF-8 bytes of `value`.
    pub fn from_text(value: &str) -> (frame: Frame)
        ensures
            frame@ == encode_utf8(value@),
    {
        Frame { content: value.as_bytes_vec() }
    }

    /// The bytes this frame is sent as: a flag, then the content with every
    /// `FLAG` and `ESCAPE` byte escaped.
    pub fn into_bytes(self) -> (bytes: Vec<u8>)
        ensures
            bytes@ == encode(self@),
    {
        let mut ret: Vec<u8> = Vec::new();
        ret.push(FLAG);
        let ghost c = self@;
        assert(c.take(0) =~= Seq::<u8>::empty());
        assert(ret@ =~= seq![FLAG] + escape(c.take(0)));
        let mut i: usize = 0;
        while i < self.content.len()
            invariant
                c == self.content@,
                i <= c.len(),
                ret@ == seq![FLAG] + escape(c.take(i as int)),
            decreases c.len() - i,
        {
            let u = self.content[i];
            assert(c.take(i + 1).drop_last() =~= c.take(i as int));
            assert(c.take(i + 1).last() == u);
            let ghost prev = ret@;
            if u == FLAG {
                ret.push(ESCAPE);
                ret.push(ESCAPED_FLAG);
            } else if u == ESCAPE {
                ret.push(ESCAPE);
                ret.push(ESCAPED_ESCAPE);
            } else {
                ret.push(u);
            }
            assert(ret@ =~= prev + escape_byte(u));
            i += 1;
        }
        assert(c.take(c.len() as int) =~= c);
        ret
    }

    /// The text this frame holds, where its content is valid UTF-8.
    pub fn to_text(&self) -> (text: Option<String>)
        ensures
            text is Some <==> valid_utf8(self@),
            text matches Some(t) ==> t@ == decode_utf8(self@),
    {
        string_from_utf8(self.content.clone())
    }

    /// The text this frame holds; its content must be valid UTF-8.
    pub fn into_text(self) -> (text: String)
        requires
            valid_utf8(self@),
        ensures
            text@ == decode_utf8(self@),
    {
        match string_from_utf8(self.content) {
            Some(t) => t,
            None => {
                proof {
                    assert(false);
                }
                String::new()
            },
        }
    }

    /// How this frame is shown in logs: `Frame<` and `>` around its text;
    /// the content must be valid UTF-8.
    pub fn display_text(&self) -> (text: String)
        requires
            valid_utf8(self@),
        ensures
            text@ == "Frame<"@ + decode_utf8(self@) + ">"@,
    {
        let inner = self.to_text().unwrap();
        let mut text = String::from_str("Frame<");
        text.append(inner.as_str());
        text.append(">");
        text
    }
}

} // verus!
