use vstd::prelude::*;
use vstd::utf8::{
    decode_utf8, decode_utf8_split, is_char_boundary_iff_not_is_continuation_byte,
    is_continuation_byte, length_of_first_scalar, pop_first_scalar, valid_first_scalar,
    valid_utf8, valid_utf8_concat,
};
use crate::event::{EventView, ProcessEvent, StdioChannel, Utf8ErrorInfo};

verus! {

/// The number of leading bytes of `bytes` that form the longest prefix which
/// is valid text on its own, counted in whole scalar encodings.
pub open spec fn utf8_valid_prefix_len(bytes: Seq<u8>) -> int
    decreases bytes.len(),
{
    if bytes.len() == 0 {
        0
    } else if valid_first_scalar(bytes) {
        length_of_first_scalar(bytes) + utf8_valid_prefix_len(pop_first_scalar(bytes))
    } else {
        0
    }
}

/// Relies on `str::from_utf8` and `Utf8Error::valid_up_to`: decoding succeeds
/// exactly on valid UTF-8 and yields the text those bytes encode; on other
/// input, `valid_up_to` is documented as the maximum index up to which the
/// input is valid UTF-8.  `str::to_owned` only copies the text.
#[verifier::external_body]
fn from_utf8_text(bytes: &[u8]) -> (r: Result<String, usize>)
    ensures
        match r {
            Ok(s) => valid_utf8(bytes@) && s@ == decode_utf8(bytes@),
            Err(i) => {
                &&& !valid_utf8(bytes@)
                &&& i <= bytes@.len()
                &&& valid_utf8(bytes@.subrange(0, i as int))
                &&& forall|j: int| i < j <= bytes@.len() ==> !valid_utf8(bytes@.subrange(0, j))
            },
        },
{
    match core::str::from_utf8(bytes) {
        Ok(s) => Ok(s.to_owned()),
        Err(e) => Err(e.valid_up_to()),
    }
}

/// `utf8_valid_prefix_len` names the longest valid prefix: that prefix is
/// valid text, no longer prefix is, and on fully valid input it is the whole
/// sequence.
pub proof fn lemma_utf8_valid_prefix_len(bytes: Seq<u8>)
    ensures
        0 <= utf8_valid_prefix_len(bytes) <= bytes.len(),
        valid_utf8(bytes.subrange(0, utf8_valid_prefix_len(bytes))),
        !valid_utf8(bytes) ==> forall|j: int|
            utf8_valid_prefix_len(bytes) < j <= bytes.len() ==> !valid_utf8(
                bytes.subrange(0, j),
            ),
        valid_utf8(bytes) ==> utf8_valid_prefix_len(bytes) == bytes.len(),
    decreases bytes.len(),
{
    if bytes.len() == 0 {
        assert(bytes.subrange(0, 0) =~= bytes);
    } else if valid_first_scalar(bytes) {
        let w = length_of_first_scalar(bytes);
        let rest = pop_first_scalar(bytes);
        let head = bytes.subrange(0, w);
        assert(rest.len() < bytes.len());
        lemma_utf8_valid_prefix_len(rest);
        let p = utf8_valid_prefix_len(rest);
        assert(utf8_valid_prefix_len(bytes) == w + p);

        // The head on its own is a valid scalar encoding followed by nothing.
        assert(1 <= w <= bytes.len());
        assert(valid_first_scalar(head)) by {
            assert(forall|k: int| 0 <= k < w ==> head[k] == bytes[k]);
        }
        assert(length_of_first_scalar(head) == w) by {
            assert(head[0] == bytes[0]);
        }
        assert(pop_first_scalar(head) =~= Seq::<u8>::empty());
        assert(valid_utf8(Seq::<u8>::empty()));
        assert(valid_utf8(head));

        // The claimed prefix is the head followed by the rest's longest prefix.
        let rest_prefix = rest.subrange(0, p);
        assert(bytes.subrange(0, w + p) =~= head + rest_prefix);
        valid_utf8_concat(head, rest_prefix);

        // Any longer prefix splits as the head plus an invalid prefix of the rest.
        if !valid_utf8(bytes) {
            assert(!valid_utf8(rest));
            assert forall|j: int| w + p < j <= bytes.len() implies !valid_utf8(
                bytes.subrange(0, j),
            ) by {
                let pre = bytes.subrange(0, j);
                assert(p < j - w <= rest.len());
                assert(!valid_utf8(rest.subrange(0, j - w)));
                if valid_utf8(pre) {
                    assert(valid_first_scalar(pre)) by {
                        assert(forall|k: int| 0 <= k < w ==> pre[k] == bytes[k]);
                        assert(pre.len() >= w);
                    }
                    assert(length_of_first_scalar(pre) == w) by {
                        assert(pre[0] == bytes[0]);
                    }
                    assert(pop_first_scalar(pre) =~= rest.subrange(0, j - w));
                }
            }
        }
    } else {
        // No prefix of length one or more can start with a valid scalar,
        // because a valid first scalar of a prefix is one of `bytes` as well.
        assert(utf8_valid_prefix_len(bytes) == 0);
        assert(bytes.subrange(0, 0) =~= Seq::<u8>::empty());
        assert(!valid_utf8(bytes)) by {
            assert(bytes.len() != 0);
        }
        assert forall|j: int| 0 < j <= bytes.len() implies !valid_utf8(
            bytes.subrange(0, j),
        ) by {
            let pre = bytes.subrange(0, j);
            if valid_utf8(pre) {
                assert(valid_first_scalar(pre));
                assert(valid_first_scalar(bytes)) by {
                    assert(forall|k: int| 0 <= k < pre.len() ==> pre[k] == bytes[k]);
                    assert(bytes.len() >= pre.len());
                }
            }
        }
    }
}

/// What one chunk of bytes taken from a stream gives rise to: the event to
/// forward, if any, and whether the source keeps going afterwards.  Invalid
/// text is reported and ends the source; an empty chunk is silently dropped
/// and also ends it; valid text is forwarded and the source continues.
pub open spec fn chunk_plan(bytes: Seq<u8>, channel: StdioChannel) -> (Option<EventView>, bool) {
    if !valid_utf8(bytes) {
        (
            Some(
                EventView::Utf8Error(
                    channel,
                    Utf8ErrorInfo { valid_up_to: utf8_valid_prefix_len(bytes) as usize },
                ),
            ),
            false,
        )
    } else if bytes.len() == 0 {
        (None, false)
    } else {
        (Some(EventView::Data(channel, decode_utf8(bytes))), true)
    }
}

/// Decode one chunk of bytes read from the given stream and decide what to
/// forward, following [`chunk_plan`].
pub fn decode_chunk(buffer: &[u8], channel: StdioChannel) -> (r: (Option<ProcessEvent>, bool))
    ensures
        r.0.deep_view() == chunk_plan(buffer@, channel).0,
        r.1 == chunk_plan(buffer@, channel).1,
{
    if buffer.len() == 0 {
        return (None, false);
    }
    match from_utf8_text(buffer) {
        Ok(text) => (Some(ProcessEvent::Data(channel, text)), true),
        Err(valid_up_to) => {
            proof {
                lemma_utf8_valid_prefix_len(buffer@);
                let p = utf8_valid_prefix_len(buffer@);
                if valid_up_to < p {
                    assert(!valid_utf8(buffer@.subrange(0, p)));
                } else if valid_up_to > p {
                    assert(!valid_utf8(buffer@.subrange(0, valid_up_to as int)));
                }
            }
            (Some(ProcessEvent::Utf8Error(channel, Utf8ErrorInfo { valid_up_to })), false)
        },
    }
}

/// Valid text decodes piecewise: the decoding of two valid chunks in a row is
/// the decoding of the one followed by the decoding of the other.
pub proof fn lemma_decode_utf8_concat(a: Seq<u8>, b: Seq<u8>)
    requires
        valid_utf8(a),
        valid_utf8(b),
    ensures
        valid_utf8(a + b),
        decode_utf8(a + b) == decode_utf8(a) + decode_utf8(b),
{
    valid_utf8_concat(a, b);
    let m = a + b;
    if b.len() == 0 {
        assert(m =~= a);
        assert(decode_utf8(a) + decode_utf8(b) =~= decode_utf8(a));
    } else {
        assert(valid_first_scalar(b));
        assert(m[a.len() as int] == b[0]);
        assert(!is_continuation_byte(b[0]));
        is_char_boundary_iff_not_is_continuation_byte(m, a.len() as int);
        decode_utf8_split(m, a.len() as int);
        assert(m.subrange(0, a.len() as int) =~= a);
        assert(m.subrange(a.len() as int, m.len() as int) =~= b);
    }
}

} // verus!
