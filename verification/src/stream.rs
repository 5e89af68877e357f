//! What the parser gives back of a whole stream of bytes.
use vstd::prelude::*;
use vstd::utf8::{encode_utf8, is_ascii_chars, is_ascii_chars_encode_utf8};
use crate::protocol::{
    Message, encode, step, is_frame, completes, lcd_frame, latin1, no_terminator, is_id, pending,
    at_most_one_terminator, lemma_lcd_frame_shape, lemma_step_completes, LCDWRITE_VAL_ID,
    LCDCLEAR_VAL_ID, LED_1_VAL_ID, HANDSHAKE_VAL_ID,
};

verus! {

/// Feeding the bytes `input`, one after another, to a parser that holds the
/// bytes `t` of a frame under way: the bytes it holds afterwards, and the
/// result it gives back for each byte.
pub open spec fn feed(t: Seq<u8>, input: Seq<u8>) -> (Seq<u8>, Seq<Option<Message>>)
    decreases input.len(),
{
    if input.len() == 0 {
        (t, Seq::empty())
    } else {
        let (t1, r) = step(t, input[0]);
        let (t2, rs) = feed(t1, input.drop_first());
        (t2, seq![r] + rs)
    }
}

/// The messages that the parser reads back exactly as they were written:
/// flag messages, and LCD writes whose lines are ASCII (the parser reads a
/// line one character per byte, `repr` writes it in UTF-8).
pub open spec fn readable(m: Message) -> bool {
    match m {
        Message::Lcdwrite(l1, l2) => is_ascii_chars(l1) && is_ascii_chars(l2),
        _ => true,
    }
}

/// The results the parser gives back while it reads the `n` bytes of one
/// message `m`: nothing until the last byte, then the message.
pub open spec fn results_of(n: nat, m: Message) -> Seq<Option<Message>> {
    Seq::new((n - 1) as nat, |i: int| None::<Message>).push(Some(m))
}

/// Feeding two pieces of a stream one after the other is feeding the whole.
pub proof fn law_feed_concat(t: Seq<u8>, x: Seq<u8>, y: Seq<u8>)
    ensures
        feed(t, x + y) == (feed(feed(t, x).0, y).0, feed(t, x).1 + feed(feed(t, x).0, y).1),
    decreases x.len(),
{
    if x.len() == 0 {
        assert(x + y =~= y);
        assert(feed(t, x).1 + feed(feed(t, x).0, y).1 =~= feed(t, y).1);
    } else {
        let t1 = step(t, x[0]).0;
        assert((x + y).drop_first() =~= x.drop_first() + y);
        assert((x + y)[0] == x[0]);
        law_feed_concat(t1, x.drop_first(), y);
        let (t2, rs) = feed(t1, x.drop_first());
        assert(seq![step(t, x[0]).1] + (rs + feed(t2, y).1) =~= (seq![step(t, x[0]).1] + rs) + feed(t2, y).1);
    }
}

proof fn lemma_ascii_text(l: Seq<char>)
    requires
        is_ascii_chars(l),
    ensures
        no_terminator(encode_utf8(l)),
        latin1(encode_utf8(l)) == l,
        encode_utf8(l).len() == l.len(),
{
    is_ascii_chars_encode_utf8(l);
    let e = encode_utf8(l);
    assert forall|i: int| 0 <= i < e.len() implies e[i] != 255u8 && (e[i] as char) == l[i] by {
        assert(l[i] as u8 == e[i]);
        assert('\0' <= l[i] <= '\u{7f}');
    }
    assert(latin1(e) =~= l);
}

proof fn lemma_encode_is_frame(m: Message)
    requires
        readable(m),
    ensures
        is_frame(encode(m), m),
        encode(m).len() >= 2,
        is_id(encode(m)[0]),
{
    if let Message::Lcdwrite(l1, l2) = m {
        lemma_ascii_text(l1);
        lemma_ascii_text(l2);
        let a = encode_utf8(l1);
        let b = encode_utf8(l2);
        lemma_lcd_frame_shape(a, b);
        assert(lcd_frame(a, b) == encode(m));
    }
}

/// No proper prefix of a readable message, of two bytes or more, is a
/// complete frame.
proof fn lemma_no_early_frame(m: Message, j: int)
    requires
        readable(m),
        2 <= j < encode(m).len(),
    ensures
        !completes(encode(m).take(j)),
{
    let e = encode(m);
    let u = e.take(j);
    if let Message::Lcdwrite(l1, l2) = m {
        lemma_ascii_text(l1);
        lemma_ascii_text(l2);
        let a0 = encode_utf8(l1);
        let b0 = encode_utf8(l2);
        lemma_lcd_frame_shape(a0, b0);
        assert forall|m2: Message| !is_frame(u, m2) by {
            if is_frame(u, m2) {
                if let Message::Lcdwrite(x, y) = m2 {
                    let (a, b) = choose|a: Seq<u8>, b: Seq<u8>|
                        {
                            &&& #[trigger] lcd_frame(a, b) == u
                            &&& no_terminator(a)
                            &&& no_terminator(b)
                            &&& x == latin1(a)
                            &&& y == latin1(b)
                        };
                    lemma_lcd_frame_shape(a, b);
                    let i = a.len() as int + 1;
                    assert(u[i] == e[i]);
                    assert(u[j - 1] == e[j - 1]);
                    assert(u[0] == e[0]);
                }
            }
        }
    }
}

/// A parser holding the first `k` bytes of a readable message reads the rest
/// of it: nothing until the last byte, then the message.
proof fn lemma_feed_rest(m: Message, k: int)
    requires
        readable(m),
        1 <= k < encode(m).len(),
    ensures
        feed(encode(m).take(k), encode(m).skip(k)) == (
            Seq::<u8>::empty(),
            results_of((encode(m).len() - k) as nat, m),
        ),
    decreases encode(m).len() - k,
{
    let e = encode(m);
    let n = e.len() as int;
    lemma_encode_is_frame(m);
    let t = e.take(k);
    assert(e.skip(k)[0] == e[k]);
    assert(e.skip(k).drop_first() =~= e.skip(k + 1));
    assert(t.push(e[k]) =~= e.take(k + 1));
    if k + 1 == n {
        assert(e.take(k + 1) =~= e);
        lemma_step_completes(t, e[k], m);
        let rest = e.skip(k);
        assert(rest.drop_first().len() == 0);
        assert(feed(Seq::<u8>::empty(), rest.drop_first()) == (Seq::<u8>::empty(), Seq::<Option<Message>>::empty()));
        assert(step(t, rest[0]) == (Seq::<u8>::empty(), Some(m)));
        assert(feed(t, rest).1 =~= seq![Some(m)]);
        assert(results_of(1, m) =~= seq![Some(m)]);
    } else {
        lemma_no_early_frame(m, k + 1);
        assert(step(t, e[k]) == (e.take(k + 1), None::<Message>));
        lemma_feed_rest(m, k + 1);
        assert(seq![None::<Message>] + results_of((n - k - 1) as nat, m) =~= results_of(
            (n - k) as nat,
            m,
        ));
    }
}

/// A readable message written with `repr` is read back by a parser with no
/// frame under way: the parser gives back nothing until the last byte of the
/// message, then the message itself, and is then idle again.
pub proof fn law_read_back(m: Message)
    requires
        readable(m),
    ensures
        feed(Seq::empty(), encode(m)) == (Seq::<u8>::empty(), results_of(encode(m).len(), m)),
{
    let e = encode(m);
    lemma_encode_is_frame(m);
    assert(step(Seq::empty(), e[0]) == (e.take(1), None::<Message>)) by {
        assert(seq![e[0]] =~= e.take(1));
    }
    assert(e.drop_first() =~= e.skip(1));
    lemma_feed_rest(m, 1);
    assert(seq![None::<Message>] + results_of((e.len() - 1) as nat, m) =~= results_of(e.len(), m));
}


/// The bytes of several messages written one after another.
pub open spec fn encode_all(ms: Seq<Message>) -> Seq<u8>
    decreases ms.len(),
{
    if ms.len() == 0 {
        Seq::empty()
    } else {
        encode(ms[0]) + encode_all(ms.drop_first())
    }
}

/// The results the parser gives back while it reads the messages `ms`
/// written one after another.
pub open spec fn results_all(ms: Seq<Message>) -> Seq<Option<Message>>
    decreases ms.len(),
{
    if ms.len() == 0 {
        Seq::empty()
    } else {
        results_of(encode(ms[0]).len(), ms[0]) + results_all(ms.drop_first())
    }
}

/// Readable messages written one after another are read back one by one, in
/// the order they were written, and the parser is idle at the end.
pub proof fn law_read_back_all(ms: Seq<Message>)
    requires
        forall|i: int| 0 <= i < ms.len() ==> readable(#[trigger] ms[i]),
    ensures
        feed(Seq::empty(), encode_all(ms)) == (Seq::<u8>::empty(), results_all(ms)),
    decreases ms.len(),
{
    if ms.len() > 0 {
        assert(readable(ms[0]));
        law_read_back(ms[0]);
        let rest = ms.drop_first();
        assert forall|i: int| 0 <= i < rest.len() implies readable(#[trigger] rest[i]) by {
            assert(rest[i] == ms[i + 1]);
        }
        law_read_back_all(rest);
        law_feed_concat(Seq::empty(), encode(ms[0]), encode_all(rest));
    }
}

/// While no frame is under way, bytes that are no identifier are skipped: a
/// readable message written after them is still read back.
pub proof fn law_skip_noise(noise: Seq<u8>, m: Message)
    requires
        forall|i: int| 0 <= i < noise.len() ==> !is_id(#[trigger] noise[i]),
        readable(m),
    ensures
        feed(Seq::empty(), noise + encode(m)) == (
            Seq::<u8>::empty(),
            Seq::new(noise.len(), |i: int| None::<Message>) + results_of(encode(m).len(), m),
        ),
{
    lemma_feed_noise(noise);
    law_read_back(m);
    law_feed_concat(Seq::empty(), noise, encode(m));
}

proof fn lemma_feed_noise(noise: Seq<u8>)
    requires
        forall|i: int| 0 <= i < noise.len() ==> !is_id(#[trigger] noise[i]),
    ensures
        feed(Seq::empty(), noise) == (Seq::<u8>::empty(), Seq::new(noise.len(), |i: int| None::<Message>)),
    decreases noise.len(),
{
    if noise.len() > 0 {
        assert(!is_id(noise[0]));
        let rest = noise.drop_first();
        assert forall|i: int| 0 <= i < rest.len() implies !is_id(#[trigger] rest[i]) by {
            assert(rest[i] == noise[i + 1]);
        }
        lemma_feed_noise(rest);
        assert(step(Seq::empty(), noise[0]) == (Seq::<u8>::empty(), None::<Message>)) by {
            assert(Seq::<u8>::empty() =~= Seq::empty());
        }
        assert(seq![None::<Message>] + Seq::new(rest.len(), |i: int| None::<Message>) =~= Seq::new(
            noise.len(),
            |i: int| None::<Message>,
        ));
    }
}


proof fn lemma_feed_two(t: Seq<u8>, x: u8, y: u8)
    ensures
        feed(t, seq![x, y]) == (
            step(step(t, x).0, y).0,
            seq![step(t, x).1, step(step(t, x).0, y).1],
        ),
{
    let s = seq![x, y];
    assert(s[0] == x);
    assert(s.drop_first() =~= seq![y]);
    assert(seq![y].drop_first() =~= Seq::<u8>::empty());
    assert(seq![y][0] == y);
    let t1 = step(t, x).0;
    let t2 = step(t1, y).0;
    assert(feed(t2, seq![y].drop_first()) == (t2, Seq::<Option<Message>>::empty()));
    assert(feed(t1, seq![y]).1 =~= seq![step(t1, y).1]);
    assert(seq![step(t, x).1] + seq![step(t1, y).1] =~= seq![step(t, x).1, step(t1, y).1]);
}

/// Two terminators end whatever frame a parser holds: afterwards it is idle.
pub proof fn law_terminators_reset(t: Seq<u8>)
    requires
        pending(t),
    ensures
        feed(t, seq![255u8, 255u8]).0 == Seq::<u8>::empty(),
{
    lemma_feed_two(t, 255u8, 255u8);
    if t.len() > 0 {
        let u = t.push(255u8);
        if t[0] != LCDWRITE_VAL_ID as u8 {
            let m = if t[0] == LCDCLEAR_VAL_ID as u8 {
                Message::Lcdclear(true)
            } else if t[0] == LED_1_VAL_ID as u8 {
                Message::Led_1(true)
            } else if t[0] == HANDSHAKE_VAL_ID as u8 {
                Message::Handshake(true)
            } else {
                Message::Recieved(true)
            };
            assert(is_frame(u, m));
            lemma_step_completes(t, 255u8, m);
        } else if exists|p: int| 1 <= p < t.len() && t[p] == 255u8 {
            let p = choose|p: int| 1 <= p < t.len() && t[p] == 255u8;
            let a = t.subrange(1, p);
            let b = t.subrange(p + 1, t.len() as int);
            assert(lcd_frame(a, b) =~= u);
            lemma_step_completes(t, 255u8, Message::Lcdwrite(latin1(a), latin1(b)));
        } else {
            assert(at_most_one_terminator(u));
            assert(!completes(u)) by {
                assert forall|m: Message| !is_frame(u, m) by {
                    if let Message::Lcdwrite(x, y) = m {
                        if is_frame(u, m) {
                            let (a, b) = choose|a: Seq<u8>, b: Seq<u8>|
                                {
                                    &&& #[trigger] lcd_frame(a, b) == u
                                    &&& no_terminator(a)
                                    &&& no_terminator(b)
                                    &&& x == latin1(a)
                                    &&& y == latin1(b)
                                };
                            lemma_lcd_frame_shape(a, b);
                            assert(u[a.len() as int + 1] == 255u8);
                        }
                    }
                }
            }
            let a = t.subrange(1, t.len() as int);
            assert(no_terminator(a));
            assert(no_terminator(Seq::<u8>::empty()));
            assert(lcd_frame(a, Seq::empty()) =~= u.push(255u8));
            assert(latin1(Seq::<u8>::empty()) =~= Seq::<char>::empty());
            assert(is_frame(u.push(255u8), Message::Lcdwrite(latin1(a), Seq::empty())));
            lemma_step_completes(u, 255u8, Message::Lcdwrite(latin1(a), Seq::empty()));
        }
    }
}

/// Whatever frame a parser holds, two terminators and then a readable message
/// make it give back that message at the message's last byte, and leave it
/// idle.
pub proof fn law_resync(t: Seq<u8>, m: Message)
    requires
        pending(t),
        readable(m),
    ensures
        feed(t, seq![255u8, 255u8] + encode(m)) == (
            Seq::<u8>::empty(),
            feed(t, seq![255u8, 255u8]).1 + results_of(encode(m).len(), m),
        ),
{
    law_terminators_reset(t);
    law_feed_concat(t, seq![255u8, 255u8], encode(m));
    law_read_back(m);
}

} // verus!
