//! The text that goes over the serial port: how bytes read from the port
//! become text, and which bytes a text is sent as.
use vstd::prelude::*;
use vstd::string::StrSliceExecFns;
use crate::protocol::{latin1, push_char};

verus! {

/// The line terminator that ends a line read from the port.
pub const LINE_END: u8 = 10;

/// Whether the character of the code point `b` is white space
/// (`char::is_whitespace`, for the characters of one byte).
pub open spec fn is_space_byte(b: u8) -> bool {
    (9 <= b <= 13) || b == 32 || b == 0x85 || b == 0xA0
}

/// `s` without its trailing white space.
pub open spec fn trim_end(s: Seq<u8>) -> Seq<u8>
    decreases s.len(),
{
    if s.len() > 0 && is_space_byte(s.last()) {
        trim_end(s.drop_last())
    } else {
        s
    }
}

/// The bytes that a text is sent as: its characters from the last to the
/// first, each as the low byte of its code point.
pub open spec fn send_order(cs: Seq<char>) -> Seq<u8> {
    Seq::new(cs.len(), |i: int| ((cs[cs.len() - 1 - i] as u32) % 256) as u8)
}

/// The text of bytes read from the port: each byte is the character of that
/// code point.
pub fn text_of_bytes(bytes: &[u8]) -> (s: String)
    ensures
        s@ == latin1(bytes@),
{
    let mut s = String::new();
    let mut i: usize = 0;
    while i < bytes.len()
        invariant
            i <= bytes.len(),
            s@ == latin1(bytes@.subrange(0, i as int)),
        decreases bytes.len() - i,
    {
        proof {
            assert(bytes@.subrange(0, i + 1) =~= bytes@.subrange(0, i as int).push(bytes@[i as int]));
        }
        push_char(&mut s, bytes[i]);
        i += 1;
        assert(s@ =~= latin1(bytes@.subrange(0, i as int)));
    }
    assert(bytes@.subrange(0, i as int) =~= bytes@);
    s
}

/// The text of a line read from the port, its terminator left out: the
/// bytes as characters, without trailing white space.
pub fn line_of_bytes(bytes: &[u8]) -> (s: String)
    ensures
        s@ == latin1(trim_end(bytes@)),
{
    let mut end = bytes.len();
    assert(bytes@.subrange(0, end as int) =~= bytes@);
    while end > 0 && is_space(bytes[end - 1])
        invariant
            end <= bytes.len(),
            trim_end(bytes@.subrange(0, end as int)) == trim_end(bytes@),
        decreases end,
    {
        proof {
            assert(bytes@.subrange(0, end - 1) =~= bytes@.subrange(0, end as int).drop_last());
        }
        end -= 1;
    }
    assert(bytes@.subrange(0, end as int) == trim_end(bytes@));
    let kept = &bytes[0..end];
    assert(kept@ =~= bytes@.subrange(0, end as int));
    text_of_bytes(kept)
}

fn is_space(b: u8) -> (r: bool)
    ensures
        r == is_space_byte(b),
{
    (9 <= b && b <= 13) || b == 32 || b == 0x85 || b == 0xA0
}

/// The bytes that a text is sent as: its characters from the last to the
/// first, each as the low byte of its code point.
pub fn bytes_to_send(s: &str) -> (bytes: Vec<u8>)
    ensures
        bytes@ == send_order(s@),
{
    let n = s.unicode_len();
    let mut bytes = Vec::new();
    let mut k = n;
    while k > 0
        invariant
            k <= n == s@.len(),
            bytes@ == send_order(s@).subrange(0, (n - k) as int),
        decreases k,
    {
        let c = s.get_char(k - 1);
        let code = c as u32;
        bytes.push((code % 256) as u8);
        k -= 1;
        assert(bytes@ =~= send_order(s@).subrange(0, (n - k) as int));
    }
    assert(send_order(s@).subrange(0, n as int) =~= send_order(s@));
    bytes
}

/// The bytes that a line is sent as: the text followed by the line
/// terminator, sent as `bytes_to_send` sends a text.
pub fn line_bytes_to_send(s: &str) -> (bytes: Vec<u8>)
    ensures
        bytes@ == send_order(s@.push('\n')),
{
    let mut bytes = Vec::new();
    bytes.push(LINE_END);
    let rest = bytes_to_send(s);
    let mut i: usize = 0;
    while i < rest.len()
        invariant
            i <= rest.len(),
            rest@ == send_order(s@),
            bytes@ == seq![LINE_END] + rest@.subrange(0, i as int),
        decreases rest.len() - i,
    {
        bytes.push(rest[i]);
        i += 1;
        assert(bytes@ =~= seq![LINE_END] + rest@.subrange(0, i as int));
    }
    assert(bytes@ =~= send_order(s@.push('\n'))) by {
        assert(rest@.subrange(0, i as int) =~= rest@);
        assert(('\n' as u32) % 256 == 10);
    }
    bytes
}


/// Trimming only removes trailing white space: what is kept is a prefix of
/// the line, every byte after it is white space, and what is kept is empty or
/// ends in a byte that is not; a line whose last byte is not white space is
/// kept whole.
pub proof fn law_trim_end(b: Seq<u8>)
    ensures
        trim_end(b).len() <= b.len(),
        trim_end(b) == b.subrange(0, trim_end(b).len() as int),
        forall|i: int| trim_end(b).len() <= i < b.len() ==> is_space_byte(#[trigger] b[i]),
        trim_end(b).len() == 0 || !is_space_byte(trim_end(b).last()),
        b.len() > 0 && !is_space_byte(b.last()) ==> trim_end(b) == b,
    decreases b.len(),
{
    if b.len() > 0 && is_space_byte(b.last()) {
        let d = b.drop_last();
        law_trim_end(d);
        assert(trim_end(b) == trim_end(d));
        assert(d.subrange(0, trim_end(d).len() as int) =~= b.subrange(0, trim_end(d).len() as int));
        assert forall|i: int| trim_end(b).len() <= i < b.len() implies is_space_byte(#[trigger] b[i]) by {
            if i < d.len() {
                assert(b[i] == d[i]);
            }
        }
    } else {
        assert(b.subrange(0, b.len() as int) =~= b);
    }
}

/// A text is sent as one byte per character.
pub proof fn law_send_order_len(cs: Seq<char>)
    ensures
        send_order(cs).len() == cs.len(),
        send_order(Seq::<char>::empty()) == Seq::<u8>::empty(),
{
    assert(send_order(Seq::<char>::empty()) =~= Seq::<u8>::empty());
}

/// A character added at the end of a text is sent first, as the low byte of
/// its code point, before the rest of the text is sent as before.
pub proof fn law_send_order_push(cs: Seq<char>, c: char)
    ensures
        send_order(cs.push(c)) == seq![((c as u32) % 256) as u8] + send_order(cs),
{
    assert(send_order(cs.push(c)) =~= seq![((c as u32) % 256) as u8] + send_order(cs)) by {
        assert forall|i: int| 1 <= i < cs.len() + 1 implies send_order(cs.push(c))[i] == send_order(cs)[i - 1] by {
            assert(cs.push(c)[cs.len() - i] == cs[cs.len() - 1 - (i - 1)]);
        }
    }
}

/// Two texts sent as one: the second is sent first, then the first.
pub proof fn law_send_order_concat(cs: Seq<char>, ds: Seq<char>)
    ensures
        send_order(cs + ds) == send_order(ds) + send_order(cs),
{
    let e = cs + ds;
    assert forall|i: int| 0 <= i < e.len() implies send_order(e)[i] == (send_order(ds) + send_order(cs))[i] by {
        if i < ds.len() {
            assert(e[e.len() - 1 - i] == ds[ds.len() - 1 - i]);
        } else {
            assert(e[e.len() - 1 - i] == cs[cs.len() - 1 - (i - ds.len())]);
        }
    }
    assert(send_order(e) =~= send_order(ds) + send_order(cs));
}

/// A line is sent as its terminator, then the text as `bytes_to_send` sends
/// it: one byte more than the text has characters.
pub proof fn law_line_send_order(cs: Seq<char>)
    ensures
        send_order(cs.push('\n')) == seq![LINE_END] + send_order(cs),
        send_order(cs.push('\n')).len() == cs.len() + 1,
        send_order(cs.push('\n'))[0] == LINE_END,
{
    law_send_order_push(cs, '\n');
    assert(('\n' as u32) % 256 == 10);
    law_send_order_len(cs);
}

} // verus!
