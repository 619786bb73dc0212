use vstd::prelude::*;
use crate::caption::{Caption, SpecCaption, Timestamp, caps_view, wf_text};

verus! {

/// The bytes of the arrow ` --> ` that separates the two timestamps of a
/// time-range line.
pub open spec fn spec_arrow() -> Seq<u8> {
    seq![32u8, 45u8, 45u8, 62u8, 32u8]
}

pub open spec fn is_digit(b: u8) -> bool {
    48 <= b && b <= 57
}

pub open spec fn digit_val(b: u8) -> int {
    b - 48
}

pub open spec fn all_digits(s: Seq<u8>) -> bool {
    forall|i: int| 0 <= i < s.len() ==> is_digit(#[trigger] s[i])
}

/// The decimal rendering of a number, most significant digit first, no
/// leading zeros.
pub open spec fn spec_digits(n: nat) -> Seq<u8>
    decreases n,
{
    if n < 10 {
        seq![(48 + n) as u8]
    } else {
        spec_digits(n / 10).push((48 + n % 10) as u8)
    }
}

/// The value of a run of decimal digit bytes, most significant first.
pub open spec fn spec_digits_value(s: Seq<u8>) -> int
    decreases s.len(),
{
    if s.len() == 0 {
        0
    } else {
        spec_digits_value(s.drop_last()) * 10 + digit_val(s.last())
    }
}

/// The fixed-width rendering of a timestamp: `HH:MM:SS,mmm`, twelve bytes.
pub open spec fn spec_ser_timestamp(t: Timestamp) -> Seq<u8> {
    seq![
        (48 + t.hours as int / 10) as u8,
        (48 + t.hours as int % 10) as u8,
        58u8,
        (48 + t.minutes as int / 10) as u8,
        (48 + t.minutes as int % 10) as u8,
        58u8,
        (48 + t.seconds as int / 10) as u8,
        (48 + t.seconds as int % 10) as u8,
        44u8,
        (48 + t.millis as int / 100) as u8,
        (48 + (t.millis as int / 10) % 10) as u8,
        (48 + t.millis as int % 10) as u8,
    ]
}

/// One on-disk caption block: the number line, the time-range line, the
/// text lines, and the blank separator line.
pub open spec fn spec_ser_caption(c: SpecCaption) -> Seq<u8> {
    spec_digits(c.num as nat) + seq![10u8] + spec_ser_timestamp(c.start) + spec_arrow()
        + spec_ser_timestamp(c.end) + seq![10u8] + c.text + seq![10u8, 10u8]
}

/// The on-disk rendering of a whole collection: its blocks, in order.
pub open spec fn spec_ser(cs: Seq<SpecCaption>) -> Seq<u8>
    decreases cs.len(),
{
    if cs.len() == 0 {
        Seq::empty()
    } else {
        spec_ser_caption(cs[0]) + spec_ser(cs.skip(1))
    }
}

/// The position of the first newline byte, if any.
pub open spec fn spec_find_nl(s: Seq<u8>) -> Option<int>
    decreases s.len(),
{
    if s.len() == 0 {
        None
    } else if s[0] == 10 {
        Some(0int)
    } else {
        match spec_find_nl(s.skip(1)) {
            None => None,
            Some(i) => Some(i + 1),
        }
    }
}

/// The position of the first blank line: the first index holding two
/// adjacent newline bytes, if any.
pub open spec fn spec_find_blank(s: Seq<u8>) -> Option<int>
    decreases s.len(),
{
    if s.len() < 2 {
        None
    } else if s[0] == 10 && s[1] == 10 {
        Some(0int)
    } else {
        match spec_find_blank(s.skip(1)) {
            None => None,
            Some(i) => Some(i + 1),
        }
    }
}

/// A twelve-byte run has the shape of a timestamp: digits in the number
/// positions, `:` and `,` in the separator positions.
pub open spec fn ts_shape_ok(s: Seq<u8>) -> bool {
    &&& is_digit(s[0]) && is_digit(s[1]) && s[2] == 58
    &&& is_digit(s[3]) && is_digit(s[4]) && s[5] == 58
    &&& is_digit(s[6]) && is_digit(s[7]) && s[8] == 44
    &&& is_digit(s[9]) && is_digit(s[10]) && is_digit(s[11])
}

/// Reads a timestamp from a twelve-byte run of the shape `HH:MM:SS,mmm`,
/// rejecting minute or second fields above 59; every timestamp read back
/// is canonical.
pub open spec fn spec_parse_timestamp(s: Seq<u8>) -> Option<Timestamp> {
    if s.len() == 12 && ts_shape_ok(s) {
        let t = Timestamp {
            hours: (digit_val(s[0]) * 10 + digit_val(s[1])) as u8,
            minutes: (digit_val(s[3]) * 10 + digit_val(s[4])) as u8,
            seconds: (digit_val(s[6]) * 10 + digit_val(s[7])) as u8,
            millis: (digit_val(s[9]) * 100 + digit_val(s[10]) * 10 + digit_val(s[11])) as u16,
        };
        if t.minutes <= 59 && t.seconds <= 59 {
            Some(t)
        } else {
            None
        }
    } else {
        None
    }
}

/// Reads one caption block from the head of the input: a nonempty all-digit
/// number line whose value fits the machine, a time-range line, then text
/// lines up to the first blank line. Returns the caption and the bytes
/// consumed, through the blank separator.
pub open spec fn spec_parse_block(s: Seq<u8>) -> Option<(SpecCaption, int)> {
    match spec_find_nl(s) {
        None => None,
        Some(nl) => {
            let numline = s.take(nl);
            let rest = s.skip(nl + 1);
            if nl == 0 || !all_digits(numline) || spec_digits_value(numline) > usize::MAX as int
                || rest.len() < 30 {
                None
            } else {
                match (spec_parse_timestamp(rest.take(12)), spec_parse_timestamp(
                    rest.subrange(17, 29),
                )) {
                    (Some(start), Some(end)) => {
                        if rest.subrange(12, 17) == spec_arrow() && rest[29] == 10 {
                            let body = rest.skip(30);
                            match spec_find_blank(body) {
                                None => None,
                                Some(bl) => if body[0] == 10 {
                                    None
                                } else {
                                    Some(
                                        (
                                            SpecCaption {
                                                num: spec_digits_value(numline) as usize,
                                                start: start,
                                                end: end,
                                                text: body.take(bl),
                                            },
                                            nl + 1 + 30 + bl + 2,
                                        ),
                                    )
                                },
                            }
                        } else {
                            None
                        }
                    },
                    _ => None,
                }
            }
        },
    }
}

/// Reads a whole document: caption blocks back to back until the input is
/// exhausted. The empty document is the empty collection.
pub open spec fn spec_parse(s: Seq<u8>) -> Option<Seq<SpecCaption>>
    decreases s.len(),
{
    if s.len() == 0 {
        Some(Seq::empty())
    } else {
        match spec_parse_block(s) {
            None => None,
            Some((c, used)) => if 0 < used <= s.len() {
                match spec_parse(s.skip(used)) {
                    None => None,
                    Some(rest) => Some(seq![c] + rest),
                }
            } else {
                None
            },
        }
    }
}

/// Where the first newline sits: exactly at the first index holding one.
pub proof fn lemma_find_nl_props(s: Seq<u8>)
    ensures
        match spec_find_nl(s) {
            Some(i) => 0 <= i < s.len() && s[i] == 10 && forall|j: int|
                0 <= j < i ==> #[trigger] s[j] != 10,
            None => forall|j: int| 0 <= j < s.len() ==> #[trigger] s[j] != 10,
        },
    decreases s.len(),
{
    if s.len() == 0 {
    } else if s[0] == 10 {
    } else {
        lemma_find_nl_props(s.skip(1));
        match spec_find_nl(s.skip(1)) {
            None => {
                assert forall|j: int| 0 <= j < s.len() implies #[trigger] s[j] != 10 by {
                    if j > 0 {
                        assert(s.skip(1)[j - 1] == s[j]);
                    }
                }
            },
            Some(i) => {
                assert(s.skip(1)[i] == s[i + 1]);
                assert forall|j: int| 0 <= j < i + 1 implies #[trigger] s[j] != 10 by {
                    if j > 0 {
                        assert(s.skip(1)[j - 1] == s[j]);
                    }
                }
            },
        }
    }
}

pub proof fn lemma_find_nl_at(s: Seq<u8>, k: int)
    requires
        0 <= k < s.len(),
        s[k] == 10,
        forall|j: int| 0 <= j < k ==> #[trigger] s[j] != 10,
    ensures
        spec_find_nl(s) == Some(k),
    decreases s.len(),
{
    if k == 0 {
    } else {
        assert(s[0] != 10);
        assert(s.skip(1)[k - 1] == s[k]);
        assert(forall|j: int| 0 <= j < k - 1 ==> #[trigger] s.skip(1)[j] == s[j + 1]);
        lemma_find_nl_at(s.skip(1), k - 1);
    }
}

/// Where the first blank line sits: exactly at the first index holding two
/// adjacent newlines.
pub proof fn lemma_find_blank_props(s: Seq<u8>)
    ensures
        match spec_find_blank(s) {
            Some(i) => 0 <= i && i + 2 <= s.len() && s[i] == 10 && s[i + 1] == 10 && forall|j: int|
                0 <= j < i ==> !(#[trigger] s[j] == 10 && s[j + 1] == 10),
            None => forall|j: int| 0 <= j && j + 1 < s.len() ==> !(#[trigger] s[j] == 10 && s[j + 1]
                == 10),
        },
    decreases s.len(),
{
    if s.len() < 2 {
    } else if s[0] == 10 && s[1] == 10 {
    } else {
        lemma_find_blank_props(s.skip(1));
        match spec_find_blank(s.skip(1)) {
            None => {
                assert forall|j: int| 0 <= j && j + 1 < s.len() implies !(#[trigger] s[j] == 10 && s[j
                    + 1] == 10) by {
                    if j > 0 {
                        assert(s.skip(1)[j - 1] == s[j]);
                        assert(s.skip(1)[j] == s[j + 1]);
                    }
                }
            },
            Some(i) => {
                assert(s.skip(1)[i] == s[i + 1]);
                assert(s.skip(1)[i + 1] == s[i + 2]);
                assert forall|j: int| 0 <= j < i + 1 implies !(#[trigger] s[j] == 10 && s[j + 1]
                    == 10) by {
                    if j > 0 {
                        assert(s.skip(1)[j - 1] == s[j]);
                        assert(s.skip(1)[j] == s[j + 1]);
                    }
                }
            },
        }
    }
}

pub proof fn lemma_find_blank_at(s: Seq<u8>, k: int)
    requires
        0 <= k,
        k + 2 <= s.len(),
        s[k] == 10,
        s[k + 1] == 10,
        forall|j: int| 0 <= j < k ==> !(#[trigger] s[j] == 10 && s[j + 1] == 10),
    ensures
        spec_find_blank(s) == Some(k),
    decreases s.len(),
{
    if k == 0 {
    } else {
        assert(!(s[0] == 10 && s[1] == 10));
        assert(s.skip(1)[k - 1] == s[k]);
        assert(s.skip(1)[k] == s[k + 1]);
        assert forall|j: int| 0 <= j < k - 1 implies !(#[trigger] s.skip(1)[j] == 10 && s.skip(1)[j
            + 1] == 10) by {
            assert(s.skip(1)[j] == s[j + 1]);
            assert(s.skip(1)[j + 1] == s[j + 2]);
            assert(!(s[j + 1] == 10 && s[j + 2] == 10));
        }
        lemma_find_blank_at(s.skip(1), k - 1);
    }
}

/// The decimal rendering of a number is a nonempty run of digit bytes
/// whose value is the number again.
pub proof fn lemma_digits_value(n: nat)
    ensures
        spec_digits(n).len() >= 1,
        all_digits(spec_digits(n)),
        spec_digits_value(spec_digits(n)) == n,
    decreases n,
{
    if n < 10 {
        let w = spec_digits(n);
        assert(w.drop_last() =~= Seq::<u8>::empty());
        assert(spec_digits_value(w.drop_last()) == 0);
        assert(spec_digits_value(w) == digit_val(w.last()));
    } else {
        lemma_digits_value(n / 10);
        let d = spec_digits(n / 10);
        let w = d.push((48 + n % 10) as u8);
        assert(w.drop_last() =~= d);
        assert(w.last() == (48 + n % 10) as u8);
        assert(forall|i: int| 0 <= i < w.len() ==> is_digit(#[trigger] w[i]));
        vstd::arithmetic::div_mod::lemma_fundamental_div_mod(n as int, 10);
    }
}

/// The value of a run of digit bytes is nonnegative and no prefix of the
/// run has a larger value.
pub proof fn lemma_digits_value_bounds(s: Seq<u8>, i: int)
    requires
        all_digits(s),
        0 <= i <= s.len(),
    ensures
        0 <= spec_digits_value(s.take(i)) <= spec_digits_value(s),
    decreases s.len(),
{
    if s.len() == 0 {
        assert(s.take(i) =~= s);
    } else {
        assert(all_digits(s.drop_last()));
        lemma_digits_value_bounds(s.drop_last(), if i <= s.len() - 1 {
            i
        } else {
            s.len() - 1
        });
        assert(is_digit(s.last()));
        if i == s.len() {
            assert(s.take(i) =~= s);
            assert(spec_digits_value(s.drop_last()) * 10 >= spec_digits_value(s.drop_last()))
                by (nonlinear_arith)
                requires spec_digits_value(s.drop_last()) >= 0;
        } else {
            assert(s.take(i) =~= s.drop_last().take(i));
            assert(spec_digits_value(s.drop_last()) * 10 >= spec_digits_value(s.drop_last()))
                by (nonlinear_arith)
                requires spec_digits_value(s.drop_last()) >= 0;
        }
    }
}

/// Reading back the fixed-width rendering of a canonical timestamp gives
/// the timestamp again.
pub proof fn lemma_ts_roundtrip(t: Timestamp)
    requires
        t.wf(),
    ensures
        spec_ser_timestamp(t).len() == 12,
        ts_shape_ok(spec_ser_timestamp(t)),
        spec_parse_timestamp(spec_ser_timestamp(t)) == Some(t),
{
    let s = spec_ser_timestamp(t);
    let h = t.hours as int;
    let m = t.minutes as int;
    let sec = t.seconds as int;
    let ms = t.millis as int;
    vstd::arithmetic::div_mod::lemma_fundamental_div_mod(h, 10);
    vstd::arithmetic::div_mod::lemma_fundamental_div_mod(m, 10);
    vstd::arithmetic::div_mod::lemma_fundamental_div_mod(sec, 10);
    vstd::arithmetic::div_mod::lemma_fundamental_div_mod(ms, 10);
    vstd::arithmetic::div_mod::lemma_fundamental_div_mod(ms / 10, 10);
    assert(ms / 10 / 10 == ms / 100) by (nonlinear_arith)
        requires 0 <= ms;
    assert(0 <= h / 10 <= 9 && 0 <= h % 10 <= 9) by (nonlinear_arith)
        requires 0 <= h <= 99;
    assert(0 <= m / 10 <= 9 && 0 <= m % 10 <= 9) by (nonlinear_arith)
        requires 0 <= m <= 59;
    assert(0 <= sec / 10 <= 9 && 0 <= sec % 10 <= 9) by (nonlinear_arith)
        requires 0 <= sec <= 59;
    assert(0 <= ms / 100 <= 9 && 0 <= (ms / 10) % 10 <= 9 && 0 <= ms % 10 <= 9) by (nonlinear_arith)
        requires 0 <= ms <= 999;
}

/// A timestamp the reader accepts is canonical.
pub proof fn lemma_parse_ts_wf(w: Seq<u8>)
    ensures
        match spec_parse_timestamp(w) {
            Some(t) => t.wf(),
            None => true,
        },
{
}

/// A block the reader accepts holds a canonical caption, and spans at
/// least 34 bytes and at most the whole input.
pub proof fn lemma_parse_block_wf(s: Seq<u8>)
    ensures
        match spec_parse_block(s) {
            Some((c, used)) => c.wf() && 34 <= used <= s.len(),
            None => true,
        },
{
    lemma_find_nl_props(s);
    match spec_find_nl(s) {
        None => {},
        Some(nl) => {
            let numline = s.take(nl);
            let rest = s.skip(nl + 1);
            if !(nl == 0 || !all_digits(numline) || spec_digits_value(numline) > usize::MAX as int
                || rest.len() < 30) {
                lemma_parse_ts_wf(rest.take(12));
                lemma_parse_ts_wf(rest.subrange(17, 29));
                let body = rest.skip(30);
                lemma_find_blank_props(body);
                match spec_find_blank(body) {
                    None => {},
                    Some(bl) => {
                        if body[0] != 10 {
                            let text = body.take(bl);
                            if bl == 0 {
                                assert(body[0] == 10);
                            }
                            assert(bl >= 1);
                            assert(text[0] == body[0]);
                            if text[bl - 1] == 10 {
                                assert(body[bl - 1] == 10 && body[bl] == 10);
                                assert(!(body[bl - 1] == 10 && body[bl - 1 + 1] == 10));
                                assert(false);
                            }
                            assert forall|i: int| 0 < i < text.len() implies !(text[i - 1] == 10
                                && #[trigger] text[i] == 10) by {
                                assert(text[i - 1] == body[i - 1]);
                                assert(text[i] == body[i - 1 + 1]);
                                assert(!(body[i - 1] == 10 && body[i - 1 + 1] == 10));
                            }
                            assert(wf_text(text));
                            assert(bl + 2 <= body.len());
                        }
                    },
                }
            }
        },
    }
}

/// A collection the reader accepts is canonical throughout.
pub proof fn lemma_parse_wf(s: Seq<u8>)
    ensures
        match spec_parse(s) {
            Some(cs) => crate::caption::wf_caps(cs),
            None => true,
        },
    decreases s.len(),
{
    if s.len() == 0 {
    } else {
        lemma_parse_block_wf(s);
        match spec_parse_block(s) {
            None => {},
            Some((c, used)) => {
                if 0 < used <= s.len() {
                    lemma_parse_wf(s.skip(used));
                    match spec_parse(s.skip(used)) {
                        None => {},
                        Some(rest) => {
                            assert forall|i: int|
                                0 <= i < (seq![c] + rest).len() implies (#[trigger] (seq![c]
                                + rest)[i]).wf() by {
                                if i > 0 {
                                    assert((seq![c] + rest)[i] == rest[i - 1]);
                                }
                            }
                        },
                    }
                }
            },
        }
    }
}

/// Reading a canonical block followed by anything yields the block's
/// caption and consumes exactly the block.
#[verifier::rlimit(60)]
pub proof fn lemma_parse_block_roundtrip(c: SpecCaption, tail: Seq<u8>)
    requires
        c.wf(),
    ensures
        spec_ser_caption(c).len() == spec_digits(c.num as nat).len() + 33 + c.text.len(),
        spec_parse_block(spec_ser_caption(c) + tail) == Some(
            (c, spec_ser_caption(c).len() as int),
        ),
{
    let digits = spec_digits(c.num as nat);
    let ts1 = spec_ser_timestamp(c.start);
    let ts2 = spec_ser_timestamp(c.end);
    let text = c.text;
    let block = spec_ser_caption(c);
    let s = block + tail;
    let d = digits.len() as int;
    let t = text.len() as int;
    lemma_digits_value(c.num as nat);
    lemma_ts_roundtrip(c.start);
    lemma_ts_roundtrip(c.end);
    assert(block.len() == d + 33 + t);

    // the number line
    assert forall|j: int| 0 <= j < d implies #[trigger] s[j] != 10 by {
        assert(s[j] == digits[j]);
        assert(is_digit(digits[j]));
    }
    assert(s[d] == 10);
    lemma_find_nl_at(s, d);
    assert(s.take(d) =~= digits);

    // the time-range line
    let rest = s.skip(d + 1);
    assert(rest =~= ts1 + spec_arrow() + ts2 + seq![10u8] + text + seq![10u8, 10u8] + tail);
    assert(rest.take(12) =~= ts1);
    assert(rest.subrange(12, 17) =~= spec_arrow());
    assert(rest.subrange(17, 29) =~= ts2);
    assert(rest[29] == 10);
    assert(rest.len() >= 30 + t + 2);

    // the text lines, up to the blank separator
    let body = rest.skip(30);
    assert(body =~= text + seq![10u8, 10u8] + tail);
    assert(body[t] == 10 && body[t + 1] == 10);
    assert forall|j: int| 0 <= j < t implies !(#[trigger] body[j] == 10 && body[j + 1] == 10) by {
        assert(body[j] == text[j]);
        if j + 1 < t {
            assert(body[j + 1] == text[j + 1]);
            assert(!(text[j + 1 - 1] == 10 && text[j + 1] == 10));
        } else {
            assert(text[t - 1] != 10);
        }
    }
    lemma_find_blank_at(body, t);
    assert(body.take(t) =~= text);
    assert(body[0] == text[0]);

    // the caption assembled by the read
    let numline = s.take(d);
    assert(spec_digits_value(numline) == c.num as nat);
    match spec_parse_block(s) {
        Some((c2, used)) => {
            assert(c2 =~= c);
            assert(used == block.len());
        },
        None => {
            assert(false);
        },
    }
}

/// Serializing a canonical caption collection and reading the result back
/// yields an equivalent collection: the same numbers, time ranges and
/// texts, in the same order.
pub proof fn lemma_roundtrip(cs: Seq<SpecCaption>)
    requires
        crate::caption::wf_caps(cs),
    ensures
        spec_parse(spec_ser(cs)) == Some(cs),
    decreases cs.len(),
{
    if cs.len() == 0 {
        assert(spec_ser(cs).len() == 0);
        assert(spec_parse(spec_ser(cs)) == Some(Seq::<SpecCaption>::empty()));
        assert(cs =~= Seq::<SpecCaption>::empty());
    } else {
        assert(cs[0].wf());
        let block = spec_ser_caption(cs[0]);
        let tail = spec_ser(cs.skip(1));
        let s = spec_ser(cs);
        lemma_parse_block_roundtrip(cs[0], tail);
        assert forall|i: int| 0 <= i < cs.skip(1).len() implies (#[trigger] cs.skip(1)[i]).wf() by {
            assert(cs.skip(1)[i] == cs[i + 1]);
        }
        lemma_roundtrip(cs.skip(1));
        assert(s == block + tail);
        assert(s.skip(block.len() as int) =~= tail);
        assert(block.len() > 0);
        assert(s.len() > 0);
        assert(seq![cs[0]] + cs.skip(1) =~= cs);
    }
}

/// Serialization emits block after block: appending a caption appends its
/// block.
pub proof fn lemma_ser_push(cs: Seq<SpecCaption>, c: SpecCaption)
    ensures
        spec_ser(cs.push(c)) == spec_ser(cs) + spec_ser_caption(c),
    decreases cs.len(),
{
    if cs.len() == 0 {
        assert(cs.push(c)[0] == c);
        assert(cs.push(c).skip(1) =~= Seq::<SpecCaption>::empty());
        assert(spec_ser(Seq::<SpecCaption>::empty()) == Seq::<u8>::empty());
        assert(spec_ser(cs.push(c)) == spec_ser_caption(c) + Seq::<u8>::empty());
        assert(spec_ser_caption(c) + Seq::<u8>::empty() =~= spec_ser_caption(c));
        assert(Seq::<u8>::empty() + spec_ser_caption(c) =~= spec_ser_caption(c));
    } else {
        assert(cs.push(c).skip(1) =~= cs.skip(1).push(c));
        assert(cs.push(c)[0] == cs[0]);
        lemma_ser_push(cs.skip(1), c);
        assert(spec_ser_caption(cs[0]) + (spec_ser(cs.skip(1)) + spec_ser_caption(c)) =~= (
        spec_ser_caption(cs[0]) + spec_ser(cs.skip(1))) + spec_ser_caption(c));
    }
}

/// Appends the decimal rendering of `n`.
fn push_digits(out: &mut Vec<u8>, n: usize)
    ensures
        final(out)@ == old(out)@ + spec_digits(n as nat),
    decreases n,
{
    let ghost pre = out@;
    if n < 10 {
        out.push(48 + n as u8);
        proof {
            assert(out@ =~= pre + spec_digits(n as nat));
        }
    } else {
        push_digits(out, n / 10);
        out.push(48 + (n % 10) as u8);
        proof {
            assert((48 + (n % 10) as u8) as u8 == (48 + (n as nat) % 10) as u8);
            assert(out@ =~= pre + spec_digits(n as nat));
        }
    }
}

/// Appends the fixed-width rendering of a canonical timestamp.
fn push_timestamp(out: &mut Vec<u8>, ts: &Timestamp)
    requires
        ts.wf(),
    ensures
        final(out)@ == old(out)@ + spec_ser_timestamp(*ts),
{
    let ghost pre = out@;
    out.push(48 + ts.hours / 10);
    out.push(48 + ts.hours % 10);
    out.push(58);
    out.push(48 + ts.minutes / 10);
    out.push(48 + ts.minutes % 10);
    out.push(58);
    out.push(48 + ts.seconds / 10);
    out.push(48 + ts.seconds % 10);
    out.push(44);
    out.push((48 + ts.millis / 100) as u8);
    out.push((48 + (ts.millis / 10) % 10) as u8);
    out.push((48 + ts.millis % 10) as u8);
    proof {
        assert(out@ =~= pre + spec_ser_timestamp(*ts));
    }
}

/// Appends a byte vector.
fn push_bytes(out: &mut Vec<u8>, v: &Vec<u8>)
    ensures
        final(out)@ == old(out)@ + v@,
{
    let ghost pre = out@;
    let mut i: usize = 0;
    proof {
        assert(out@ =~= pre + v@.take(0int));
    }
    while i < v.len()
        invariant
            i <= v.len(),
            out@ == pre + v@.take(i as int),
        decreases v.len() - i,
    {
        out.push(v[i]);
        proof {
            assert(pre + v@.take(i as int) + seq![v@[i as int]] =~= pre + v@.take(i as int + 1));
        }
        i += 1;
    }
    proof {
        assert(pre + v@.take(v@.len() as int) =~= pre + v@);
    }
}

/// Appends one on-disk caption block.
fn push_caption(out: &mut Vec<u8>, c: &Caption)
    requires
        c.start.wf(),
        c.end.wf(),
    ensures
        final(out)@ == old(out)@ + spec_ser_caption(c@),
{
    let ghost pre = out@;
    push_digits(out, c.num);
    out.push(10);
    push_timestamp(out, &c.start);
    out.push(32);
    out.push(45);
    out.push(45);
    out.push(62);
    out.push(32);
    push_timestamp(out, &c.end);
    out.push(10);
    push_bytes(out, &c.text);
    out.push(10);
    out.push(10);
    proof {
        assert(out@ =~= pre + spec_ser_caption(c@));
    }
}

/// Writes a caption collection in the on-disk format: for each caption its
/// number line, its time-range line, its text lines, and a blank separator
/// line.
pub fn serialize(caps: &Vec<Caption>) -> (r: Vec<u8>)
    requires
        forall|i: int|
            0 <= i < caps@.len() ==> (#[trigger] caps@[i]).start.wf() && caps@[i].end.wf(),
    ensures
        r@ == spec_ser(caps_view(caps@)),
{
    let mut out: Vec<u8> = Vec::new();
    let mut i: usize = 0;
    proof {
        assert(caps_view(caps@.take(0int)) =~= Seq::<SpecCaption>::empty());
        assert(out@ =~= spec_ser(caps_view(caps@.take(0int))));
    }
    while i < caps.len()
        invariant
            i <= caps.len(),
            forall|k: int|
                0 <= k < caps@.len() ==> (#[trigger] caps@[k]).start.wf() && caps@[k].end.wf(),
            out@ == spec_ser(caps_view(caps@.take(i as int))),
        decreases caps.len() - i,
    {
        proof {
            assert(caps@[i as int].start == caps@[i as int]@.start);
        }
        push_caption(&mut out, &caps[i]);
        proof {
            lemma_ser_push(caps_view(caps@.take(i as int)), caps@[i as int]@);
            assert(caps_view(caps@.take(i as int)).push(caps@[i as int]@) =~= caps_view(
                caps@.take(i as int + 1),
            ));
        }
        i += 1;
    }
    proof {
        assert(caps@.take(caps@.len() as int) =~= caps@);
    }
    out
}

/// The position of the first newline at or after `pos`, if any.
fn find_nl_from(s: &Vec<u8>, pos: usize) -> (r: Option<usize>)
    requires
        pos <= s@.len(),
    ensures
        match spec_find_nl(s@.skip(pos as int)) {
            Some(i) => r matches Some(n) && n == pos + i,
            None => r is None,
        },
{
    let ghost suf = s@.skip(pos as int);
    let mut i: usize = pos;
    while i < s.len()
        invariant
            pos <= i <= s@.len(),
            suf == s@.skip(pos as int),
            forall|j: int| pos <= j < i ==> s@[j] != 10,
        decreases s.len() - i,
    {
        if s[i] == 10 {
            proof {
                assert(suf[i - pos] == s@[i as int]);
                assert forall|j: int| 0 <= j < i - pos implies #[trigger] suf[j] != 10 by {
                    assert(suf[j] == s@[pos + j]);
                }
                lemma_find_nl_at(suf, i - pos);
            }
            return Some(i);
        }
        i += 1;
    }
    proof {
        lemma_find_nl_props(suf);
        if spec_find_nl(suf) is Some {
            let k = spec_find_nl(suf)->Some_0;
            assert(suf[k] == s@[pos + k]);
            assert(false);
        }
    }
    None
}

/// The position of the first blank line at or after `pos`: the first index
/// holding two adjacent newlines, if any.
fn find_blank_from(s: &Vec<u8>, pos: usize) -> (r: Option<usize>)
    requires
        pos <= s@.len(),
    ensures
        match spec_find_blank(s@.skip(pos as int)) {
            Some(i) => r matches Some(n) && n == pos + i,
            None => r is None,
        },
{
    let ghost suf = s@.skip(pos as int);
    let mut i: usize = pos;
    while i < s.len() && i + 1 < s.len()
        invariant
            pos <= i,
            i <= s@.len(),
            suf == s@.skip(pos as int),
            forall|j: int| pos <= j < i ==> !(#[trigger] s@[j] == 10 && s@[j + 1] == 10),
        decreases s.len() - i,
    {
        if s[i] == 10 && s[i + 1] == 10 {
            proof {
                assert(suf[i - pos] == s@[i as int]);
                assert(suf[i - pos + 1] == s@[i as int + 1]);
                assert forall|j: int| 0 <= j < i - pos implies !(#[trigger] suf[j] == 10 && suf[j
                    + 1] == 10) by {
                    assert(suf[j] == s@[pos + j]);
                    assert(suf[j + 1] == s@[pos + j + 1]);
                }
                lemma_find_blank_at(suf, i - pos);
            }
            return Some(i);
        }
        i += 1;
    }
    proof {
        lemma_find_blank_props(suf);
        if spec_find_blank(suf) is Some {
            let k = spec_find_blank(suf)->Some_0;
            assert(suf[k] == s@[pos + k]);
            assert(suf[k + 1] == s@[pos + k + 1]);
            assert(false);
        }
    }
    None
}

/// Reads the decimal value of the digit run `s[start..end]`; rejects a
/// run holding a non-digit and a value above the machine's largest size.
fn parse_num(s: &Vec<u8>, start: usize, end: usize) -> (r: Option<usize>)
    requires
        start <= end <= s@.len(),
    ensures
        ({
            let line = s@.subrange(start as int, end as int);
            match r {
                Some(v) => all_digits(line) && spec_digits_value(line) == v,
                None => !all_digits(line) || spec_digits_value(line) > usize::MAX as int,
            }
        }),
{
    let ghost line = s@.subrange(start as int, end as int);
    let mut v: u128 = 0;
    let mut i: usize = start;
    proof {
        assert(line.take(0int) =~= Seq::<u8>::empty());
    }
    while i < end
        invariant
            start <= i <= end <= s@.len(),
            line == s@.subrange(start as int, end as int),
            v <= usize::MAX as u128,
            forall|k: int| 0 <= k < i - start ==> is_digit(#[trigger] line[k]),
            v == spec_digits_value(line.take(i - start)),
        decreases end - i,
    {
        let b = s[i];
        proof {
            assert(line[i - start] == s@[i as int]);
        }
        if b < 48 || b > 57 {
            proof {
                assert(!is_digit(line[i - start]));
            }
            return None;
        }
        let d = (b - 48) as u128;
        proof {
            assert(line.take(i - start + 1).drop_last() =~= line.take(i - start));
            assert(line.take(i - start + 1).last() == line[i - start]);
        }
        v = v * 10 + d;
        if v > usize::MAX as u128 {
            proof {
                assert(v == spec_digits_value(line.take(i - start + 1)));
                if all_digits(line) {
                    lemma_digits_value_bounds(line, i - start + 1);
                }
            }
            return None;
        }
        i += 1;
    }
    proof {
        assert(line.take(end - start) =~= line);
    }
    Some(v as usize)
}

/// Reads a timestamp from the twelve bytes at `pos`.
fn parse_timestamp_at(s: &Vec<u8>, pos: usize) -> (r: Option<Timestamp>)
    requires
        pos + 12 <= s@.len(),
    ensures
        r == spec_parse_timestamp(s@.subrange(pos as int, pos as int + 12)),
{
    let _slen = s.len();
    let ghost w = s@.subrange(pos as int, pos as int + 12);
    proof {
        assert forall|k: int| 0 <= k < 12 implies #[trigger] w[k] == s@[pos + k] by {}
    }
    let mut k: usize = 0;
    while k < 12
        invariant
            k <= 12,
            pos + 12 <= s@.len(),
            s@.len() <= usize::MAX,
            w == s@.subrange(pos as int, pos as int + 12),
            forall|j: int| 0 <= j < k && j != 2 && j != 5 && j != 8 ==> is_digit(#[trigger] w[j]),
            forall|j: int| 0 <= j < k && (j == 2 || j == 5) ==> w[j] == 58,
            k > 8 ==> w[8] == 44,
        decreases 12 - k,
    {
        let b = s[pos + k];
        if k == 2 || k == 5 {
            if b != 58 {
                return None;
            }
        } else if k == 8 {
            if b != 44 {
                return None;
            }
        } else {
            if b < 48 || b > 57 {
                return None;
            }
        }
        k += 1;
    }
    proof {
        assert(is_digit(w[0]) && is_digit(w[1]) && is_digit(w[3]) && is_digit(w[4]) && is_digit(
            w[6],
        ) && is_digit(w[7]) && is_digit(w[9]) && is_digit(w[10]) && is_digit(w[11]));
        assert(w[2] == 58 && w[5] == 58 && w[8] == 44);
    }
    let hours = (s[pos] - 48) * 10 + (s[pos + 1] - 48);
    let minutes = (s[pos + 3] - 48) * 10 + (s[pos + 4] - 48);
    let seconds = (s[pos + 6] - 48) * 10 + (s[pos + 7] - 48);
    let millis = ((s[pos + 9] - 48) as u16) * 100 + ((s[pos + 10] - 48) as u16) * 10 + ((s[pos
        + 11] - 48) as u16);
    if minutes > 59 || seconds > 59 {
        return None;
    }
    Some(Timestamp { hours, minutes, seconds, millis })
}

/// Copies the bytes `s[start..end]`.
fn copy_range(s: &Vec<u8>, start: usize, end: usize) -> (r: Vec<u8>)
    requires
        start <= end <= s@.len(),
    ensures
        r@ == s@.subrange(start as int, end as int),
{
    let mut out: Vec<u8> = Vec::new();
    let mut i: usize = start;
    proof {
        assert(out@ =~= s@.subrange(start as int, start as int));
    }
    while i < end
        invariant
            start <= i <= end <= s@.len(),
            out@ == s@.subrange(start as int, i as int),
        decreases end - i,
    {
        out.push(s[i]);
        proof {
            assert(out@ =~= s@.subrange(start as int, i as int + 1));
        }
        i += 1;
    }
    out
}

/// Reads one caption block at `pos`; yields the caption and the input
/// position just past its blank separator line.
#[verifier::rlimit(100)]
fn parse_block_at(s: &Vec<u8>, pos: usize) -> (r: Option<(Caption, usize)>)
    requires
        pos <= s@.len(),
    ensures
        ({
            let b = spec_parse_block(s@.skip(pos as int));
            match r {
                Some((c, next)) => b == Some((c@, next - pos)) && pos < next <= s@.len(),
                None => b is None,
            }
        }),
{
    let slen = s.len();
    let ghost suf = s@.skip(pos as int);
    proof {
        assert forall|k: int| 0 <= k < suf.len() implies #[trigger] suf[k] == s@[pos + k] by {}
    }
    let n = match find_nl_from(s, pos) {
        None => {
            return None;
        },
        Some(n) => n,
    };
    let ghost nl = n - pos;
    proof {
        lemma_find_nl_props(suf);
        assert(spec_find_nl(suf) == Some(nl));
        assert(0 <= nl < suf.len());
        assert(suf.take(nl) =~= s@.subrange(pos as int, n as int));
    }
    if n == pos {
        return None;
    }
    let num = match parse_num(s, pos, n) {
        None => {
            return None;
        },
        Some(v) => v,
    };
    // the time-range line: twelve bytes, the arrow, twelve bytes, a newline
    let ghost rest = suf.skip(nl + 1);
    proof {
        assert forall|k: int| 0 <= k < rest.len() implies #[trigger] rest[k] == s@[n + 1 + k] by {
            assert(rest[k] == suf[nl + 1 + k]);
        }
        assert(rest.len() == s@.len() - n - 1);
    }
    if slen - (n + 1) < 30 {
        return None;
    }
    proof {
        assert(rest.take(12) =~= s@.subrange(n as int + 1, n as int + 13));
        assert(rest.subrange(17, 29) =~= s@.subrange(n as int + 18, n as int + 30));
    }
    let start_ts = match parse_timestamp_at(s, n + 1) {
        None => {
            return None;
        },
        Some(t) => t,
    };
    let end_ts = match parse_timestamp_at(s, n + 18) {
        None => {
            return None;
        },
        Some(t) => t,
    };
    if !(s[n + 13] == 32 && s[n + 14] == 45 && s[n + 15] == 45 && s[n + 16] == 62 && s[n + 17]
        == 32) {
        proof {
            assert(rest.subrange(12, 17)[0] == s@[n as int + 13]);
            assert(rest.subrange(12, 17)[1] == s@[n as int + 14]);
            assert(rest.subrange(12, 17)[2] == s@[n as int + 15]);
            assert(rest.subrange(12, 17)[3] == s@[n as int + 16]);
            assert(rest.subrange(12, 17)[4] == s@[n as int + 17]);
            assert(rest.subrange(12, 17) != spec_arrow());
        }
        return None;
    }
    proof {
        assert(rest.subrange(12, 17) =~= spec_arrow());
    }
    if s[n + 30] != 10 {
        proof {
            assert(rest[29] == s@[n as int + 30]);
        }
        return None;
    }
    // the text lines, up to the blank separator
    let ghost body = rest.skip(30);
    proof {
        assert forall|k: int| 0 <= k < body.len() implies #[trigger] body[k] == s@[n + 31 + k] by {
            assert(body[k] == rest[30 + k]);
        }
        assert(body =~= s@.skip(n as int + 31));
    }
    let b = match find_blank_from(s, n + 31) {
        None => {
            return None;
        },
        Some(b) => b,
    };
    let ghost bl = b - (n + 31);
    proof {
        lemma_find_blank_props(body);
    }
    if s[n + 31] == 10 {
        return None;
    }
    let text = copy_range(s, n + 31, b);
    proof {
        assert(text@ =~= body.take(bl));
    }
    let cap = Caption { num, start: start_ts, end: end_ts, text };
    proof {
        let parsed = spec_parse_block(suf);
        assert(parsed is Some);
        assert(parsed->Some_0.0 =~= cap@);
        assert(parsed->Some_0.1 == nl + 1 + 30 + bl + 2);
        assert(b + 2 - pos == nl + 1 + 30 + bl + 2);
    }
    Some((cap, b + 2))
}

/// Reads a whole document: caption blocks back to back until the input is
/// exhausted. Yields the collection the input spells, or nothing when the
/// input does not follow the format.
pub fn parse(input: &Vec<u8>) -> (r: Option<Vec<Caption>>)
    ensures
        match r {
            Some(caps) => spec_parse(input@) == Some(caps_view(caps@)),
            None => spec_parse(input@) is None,
        },
{
    let mut out: Vec<Caption> = Vec::new();
    let mut pos: usize = 0;
    proof {
        assert(input@.skip(0int) =~= input@);
        assert(caps_view(out@) =~= Seq::<SpecCaption>::empty());
    }
    while pos < input.len()
        invariant
            pos <= input@.len(),
            match spec_parse(input@.skip(pos as int)) {
                Some(rest) => spec_parse(input@) == Some(caps_view(out@) + rest),
                None => spec_parse(input@) is None,
            },
        decreases input@.len() - pos,
    {
        let ghost suf = input@.skip(pos as int);
        let (cap, next) = match parse_block_at(input, pos) {
            None => {
                proof {
                    assert(spec_parse(suf) is None);
                }
                return None;
            },
            Some(p) => p,
        };
        let ghost pre_view = caps_view(out@);
        out.push(cap);
        proof {
            let used = next - pos;
            assert(suf.skip(used) =~= input@.skip(next as int));
            assert(spec_parse(suf) == match spec_parse(input@.skip(next as int)) {
                None => None::<Seq<SpecCaption>>,
                Some(rest) => Some(seq![cap@] + rest),
            });
            assert(caps_view(out@) =~= pre_view.push(cap@));
            match spec_parse(input@.skip(next as int)) {
                None => {},
                Some(rest) => {
                    assert(pre_view + (seq![cap@] + rest) =~= (pre_view.push(cap@)) + rest);
                },
            }
        }
        pos = next;
    }
    proof {
        assert(input@.skip(pos as int).len() == 0);
        assert(spec_parse(input@.skip(pos as int)) == Some(Seq::<SpecCaption>::empty()));
        assert(caps_view(out@) + Seq::<SpecCaption>::empty() =~= caps_view(out@));
    }
    Some(out)
}

} // verus!
