use vstd::prelude::*;
use vstd::utf8::encode_utf8;
use vstd::string::{StrSliceExecFns, StringExecFns};

verus! {

/// Identifier byte of an LCD write message.
pub const LCDWRITE_VAL_ID: usize = 0;
/// Identifier byte of an LCD clear message.
pub const LCDCLEAR_VAL_ID: usize = 1;
/// Length in bytes of an LCD clear message.
pub const LCDCLEAR_VAL_LEN: usize = 2;
/// Identifier byte of a LED message.
pub const LED_1_VAL_ID: usize = 2;
/// Length in bytes of a LED message.
pub const LED_1_VAL_LEN: usize = 2;
/// Identifier byte of a handshake message.
pub const HANDSHAKE_VAL_ID: usize = 3;
/// Length in bytes of a handshake message.
pub const HANDSHAKE_VAL_LEN: usize = 2;
/// Identifier byte of an acknowledgement message.
pub const RECIEVED_VAL_ID: usize = 4;
/// Length in bytes of an acknowledgement message.
pub const RECIEVED_VAL_LEN: usize = 2;

/// A message of the protocol.
#[allow(non_camel_case_types)]
#[derive(Clone, Debug)]
pub enum Value {
    Lcdwrite(String, String),
    Lcdclear(bool),
    Led_1(bool),
    Handshake(bool),
    Recieved(bool),
}

/// The mathematical model of a message: its strings as sequences of characters.
#[allow(non_camel_case_types)]
pub enum Message {
    Lcdwrite(Seq<char>, Seq<char>),
    Lcdclear(bool),
    Led_1(bool),
    Handshake(bool),
    Recieved(bool),
}

impl View for Value {
    type V = Message;

    open spec fn view(&self) -> Message {
        match self {
            Value::Lcdwrite(l1, l2) => Message::Lcdwrite(l1@, l2@),
            Value::Lcdclear(k) => Message::Lcdclear(*k),
            Value::Led_1(s) => Message::Led_1(*s),
            Value::Handshake(s) => Message::Handshake(*s),
            Value::Recieved(s) => Message::Recieved(*s),
        }
    }
}

/// The byte that carries a flag: its lowest bit is the flag.
pub open spec fn flag_byte(b: bool) -> u8 {
    if b { 1 } else { 0 }
}

/// The frame of an LCD write: the identifier, the first line, a 255
/// terminator, the second line and another 255 terminator.
pub open spec fn lcd_frame(a: Seq<u8>, b: Seq<u8>) -> Seq<u8> {
    seq![LCDWRITE_VAL_ID as u8] + a + seq![255u8] + b + seq![255u8]
}

/// The bytes that represent a message on the wire.
pub open spec fn encode(m: Message) -> Seq<u8> {
    match m {
        Message::Lcdwrite(l1, l2) => lcd_frame(encode_utf8(l1), encode_utf8(l2)),
        Message::Lcdclear(k) => seq![LCDCLEAR_VAL_ID as u8, flag_byte(k)],
        Message::Led_1(s) => seq![LED_1_VAL_ID as u8, flag_byte(s)],
        Message::Handshake(s) => seq![HANDSHAKE_VAL_ID as u8, flag_byte(s)],
        Message::Recieved(s) => seq![RECIEVED_VAL_ID as u8, flag_byte(s)],
    }
}

fn flag_to_byte(b: bool) -> (r: u8)
    ensures
        r == flag_byte(b),
{
    if b {
        1
    } else {
        0
    }
}

fn push_text(res: &mut Vec<u8>, s: &String)
    ensures
        final(res)@ == old(res)@ + encode_utf8(s@),
{
    let bytes = s.as_str().as_bytes();
    res.extend_from_slice(bytes);
    assert(final(res)@ =~= old(res)@ + encode_utf8(s@));
}

impl Value {
    /// The bytes that represent this message on the wire.
    pub fn repr(&self) -> (res: Vec<u8>)
        ensures
            res@ == encode(self@),
    {
        let mut res = Vec::new();
        match self {
            Value::Lcdwrite(l1, l2) => {
                res.push(LCDWRITE_VAL_ID as u8);
                push_text(&mut res, l1);
                res.push(255);
                push_text(&mut res, l2);
                res.push(255);
                assert(res@ =~= encode(self@));
            },
            Value::Lcdclear(k) => {
                res.push(LCDCLEAR_VAL_ID as u8);
                res.push(flag_to_byte(*k));
                assert(res@ =~= encode(self@));
            },
            Value::Led_1(state) => {
                res.push(LED_1_VAL_ID as u8);
                res.push(flag_to_byte(*state));
                assert(res@ =~= encode(self@));
            },
            Value::Handshake(side) => {
                res.push(HANDSHAKE_VAL_ID as u8);
                res.push(flag_to_byte(*side));
                assert(res@ =~= encode(self@));
            },
            Value::Recieved(side) => {
                res.push(RECIEVED_VAL_ID as u8);
                res.push(flag_to_byte(*side));
                assert(res@ =~= encode(self@));
            },
        }
        res
    }
}


/// Whether a byte is the identifier of a message.
pub open spec fn is_id(b: u8) -> bool {
    b as usize <= RECIEVED_VAL_ID
}

/// No byte of `s` is the 255 terminator.
pub open spec fn no_terminator(s: Seq<u8>) -> bool {
    forall|i: int| 0 <= i < s.len() ==> s[i] != 255u8
}

/// Bytes read back as text: each byte is the character of that code point.
pub open spec fn latin1(s: Seq<u8>) -> Seq<char> {
    s.map_values(|b: u8| b as char)
}

/// Bytes read back as text give one character per byte, the character of
/// that byte's code point; reading two pieces one after the other reads the
/// whole.
pub proof fn law_latin1(x: Seq<u8>, y: Seq<u8>, b: u8)
    ensures
        latin1(x).len() == x.len(),
        forall|i: int| 0 <= i < x.len() ==> (#[trigger] latin1(x)[i]) as u32 == x[i] as u32,
        latin1(x.push(b)) == latin1(x).push(b as char),
        latin1(x + y) == latin1(x) + latin1(y),
{
    assert(latin1(x.push(b)) =~= latin1(x).push(b as char));
    assert(latin1(x + y) =~= latin1(x) + latin1(y));
}

/// The received bytes `t` form a complete frame that carries the message `m`.
/// The frame of an LCD write is complete with its second terminator; a flag
/// message is complete with its second byte, whose lowest bit is the flag.
pub open spec fn is_frame(t: Seq<u8>, m: Message) -> bool {
    match m {
        Message::Lcdwrite(l1, l2) => exists|a: Seq<u8>, b: Seq<u8>|
            {
                &&& #[trigger] lcd_frame(a, b) == t
                &&& no_terminator(a)
                &&& no_terminator(b)
                &&& l1 == latin1(a)
                &&& l2 == latin1(b)
            },
        Message::Lcdclear(k) => flag_frame(t, LCDCLEAR_VAL_ID as u8, k),
        Message::Led_1(s) => flag_frame(t, LED_1_VAL_ID as u8, s),
        Message::Handshake(s) => flag_frame(t, HANDSHAKE_VAL_ID as u8, s),
        Message::Recieved(s) => flag_frame(t, RECIEVED_VAL_ID as u8, s),
    }
}

/// `t` is the two-byte frame of the flag message with identifier `id` and flag `f`.
pub open spec fn flag_frame(t: Seq<u8>, id: u8, f: bool) -> bool {
    &&& t.len() == 2
    &&& t[0] == id
    &&& f == (t[1] % 2 == 1)
}

/// The received bytes `t` form a complete frame of some message.
pub open spec fn completes(t: Seq<u8>) -> bool {
    exists|m: Message| is_frame(t, m)
}

/// One step of the parser: from the bytes `t` received of the current frame
/// and a new byte, the bytes held afterwards and the message completed, if any.
/// While no frame is under way, a byte that is no identifier is dropped.
pub open spec fn step(t: Seq<u8>, byte: u8) -> (Seq<u8>, Option<Message>) {
    if t.len() == 0 {
        (if is_id(byte) { seq![byte] } else { Seq::empty() }, None)
    } else if completes(t.push(byte)) {
        (Seq::empty(), Some(choose|m: Message| is_frame(t.push(byte), m)))
    } else {
        (t.push(byte), None)
    }
}

/// No two bytes after the first one of `t` are both terminators.
pub open spec fn at_most_one_terminator(t: Seq<u8>) -> bool {
    forall|i: int, j: int| 1 <= i < j < t.len() && t[i] == 255u8 ==> t[j] != 255u8
}

/// The bytes of a frame under way that a parser can hold between two calls:
/// none; a lone identifier; or the start of an LCD write that holds one
/// terminator at most after its identifier.
pub open spec fn pending(t: Seq<u8>) -> bool {
    ||| t.len() == 0
    ||| t.len() == 1 && is_id(t[0])
    ||| t.len() > 1 && t[0] == LCDWRITE_VAL_ID as u8 && at_most_one_terminator(t)
}

/// The kind of the frame under way: the identifier it starts with, or
/// `usize::MAX` while no frame is under way.
pub open spec fn kind_of(t: Seq<u8>) -> usize {
    if t.len() == 0 {
        usize::MAX
    } else {
        t[0] as usize
    }
}

/// The message that a parse result carries.
pub open spec fn result_view(r: Option<Value>) -> Option<Message> {
    match r {
        Some(v) => Some(v@),
        None => None,
    }
}

/// `i` is the first position at or after `from` where `t` holds a terminator,
/// or the length of `t` where there is none.
pub open spec fn first_terminator(t: Seq<u8>, from: int, i: int) -> bool {
    &&& from <= i <= t.len()
    &&& forall|j: int| from <= j < i ==> t[j] != 255u8
    &&& i < t.len() ==> t[i] == 255u8
}

/// Where the terminators of an LCD write frame stand, and where its lines lie.
pub(crate) proof fn lemma_lcd_frame_shape(a: Seq<u8>, b: Seq<u8>)
    requires
        no_terminator(a),
        no_terminator(b),
    ensures
        lcd_frame(a, b).len() == a.len() + b.len() + 3,
        lcd_frame(a, b)[0] == LCDWRITE_VAL_ID as u8,
        first_terminator(lcd_frame(a, b), 1, a.len() as int + 1),
        first_terminator(lcd_frame(a, b), a.len() as int + 2, lcd_frame(a, b).len() as int - 1),
        lcd_frame(a, b).subrange(1, a.len() as int + 1) == a,
        lcd_frame(a, b).subrange(a.len() as int + 2, lcd_frame(a, b).len() as int - 1) == b,
{
    let t = lcd_frame(a, b);
    assert(forall|j: int| 1 <= j < a.len() as int + 1 ==> t[j] == a[j - 1]);
    assert(forall|j: int| a.len() as int + 2 <= j < t.len() - 1 ==> t[j] == b[j - a.len() - 2]);
    assert(t.subrange(1, a.len() as int + 1) =~= a);
    assert(t.subrange(a.len() as int + 2, t.len() - 1) =~= b);
}

proof fn lemma_first_terminator_unique(t: Seq<u8>, from: int, i: int, k: int)
    requires
        first_terminator(t, from, i),
        first_terminator(t, from, k),
    ensures
        i == k,
{
}

/// A frame carries one message at most.
pub proof fn law_frame_unique(t: Seq<u8>, m1: Message, m2: Message)
    requires
        is_frame(t, m1),
        is_frame(t, m2),
    ensures
        m1 == m2,
{
    if let Message::Lcdwrite(x1, y1) = m1 {
        let (a1, b1) = choose|a: Seq<u8>, b: Seq<u8>|
            {
                &&& #[trigger] lcd_frame(a, b) == t
                &&& no_terminator(a)
                &&& no_terminator(b)
                &&& x1 == latin1(a)
                &&& y1 == latin1(b)
            };
        lemma_lcd_frame_shape(a1, b1);
        if let Message::Lcdwrite(x2, y2) = m2 {
            let (a2, b2) = choose|a: Seq<u8>, b: Seq<u8>|
                {
                    &&& #[trigger] lcd_frame(a, b) == t
                    &&& no_terminator(a)
                    &&& no_terminator(b)
                        &&& x2 == latin1(a)
                    &&& y2 == latin1(b)
                };
            lemma_lcd_frame_shape(a2, b2);
            lemma_first_terminator_unique(t, 1, a1.len() as int + 1, a2.len() as int + 1);
        }
    }
}

/// A completing byte makes the parser give back the one message of the frame.
pub(crate) proof fn lemma_step_completes(t: Seq<u8>, byte: u8, m: Message)
    requires
        t.len() > 0,
        is_frame(t.push(byte), m),
    ensures
        step(t, byte) == (Seq::<u8>::empty(), Some(m)),
{
    let c = choose|m: Message| is_frame(t.push(byte), m);
    law_frame_unique(t.push(byte), m, c);
}

/// The start of an LCD write frame with one terminator at most after its
/// identifier is no complete frame.
proof fn lemma_one_terminator_incomplete(u: Seq<u8>)
    requires
        u.len() > 0,
        u[0] == LCDWRITE_VAL_ID as u8,
        at_most_one_terminator(u),
    ensures
        !completes(u),
{
    assert forall|m: Message| !is_frame(u, m) by {
        if let Message::Lcdwrite(x, y) = m {
            if is_frame(u, m) {
                let (a, b) = choose|a: Seq<u8>, b: Seq<u8>|
                    {
                        &&& #[trigger] lcd_frame(a, b) == u
                        &&& no_terminator(a)
                        &&& no_terminator(b)
                        &&& x == latin1(a)
                        &&& y == latin1(b)
                    };
                lemma_lcd_frame_shape(a, b);
                assert(u[a.len() as int + 1] == 255u8);
                assert(u[u.len() - 1] == 255u8);
            }
        }
    }
}

/// Every state a parser reaches is one it can hold between two calls: a step
/// from a pending frame leaves a pending frame.
pub proof fn law_step_pending(t: Seq<u8>, byte: u8)
    requires
        pending(t),
    ensures
        pending(step(t, byte).0),
{
    if t.len() > 0 {
        let u = t.push(byte);
        if t[0] != LCDWRITE_VAL_ID as u8 {
            let f = u[1] % 2 == 1;
            let m = if t[0] == LCDCLEAR_VAL_ID as u8 {
                Message::Lcdclear(f)
            } else if t[0] == LED_1_VAL_ID as u8 {
                Message::Led_1(f)
            } else if t[0] == HANDSHAKE_VAL_ID as u8 {
                Message::Handshake(f)
            } else {
                Message::Recieved(f)
            };
            assert(is_frame(u, m));
        } else if !completes(u) {
            if byte == 255u8 && exists|p: int| 1 <= p < t.len() && t[p] == 255u8 {
                let p = choose|p: int| 1 <= p < t.len() && t[p] == 255u8;
                let a = t.subrange(1, p);
                let b = t.subrange(p + 1, t.len() as int);
                assert(lcd_frame(a, b) =~= u);
                assert(is_frame(u, Message::Lcdwrite(latin1(a), latin1(b))));
            }
            assert(at_most_one_terminator(u));
        }
    }
}

/// Appends to `s` the character of code point `b`: it is cut out of a table
/// that holds the characters of every byte, in order.
pub(crate) fn push_char(s: &mut String, b: u8)
    ensures
        final(s)@ == old(s)@.push(b as char),
{
    let table = "\u{0}\u{1}\u{2}\u{3}\u{4}\u{5}\u{6}\u{7}\u{8}\u{9}\u{a}\u{b}\u{c}\u{d}\u{e}\u{f}\u{10}\u{11}\u{12}\u{13}\u{14}\u{15}\u{16}\u{17}\u{18}\u{19}\u{1a}\u{1b}\u{1c}\u{1d}\u{1e}\u{1f}\u{20}\u{21}\u{22}\u{23}\u{24}\u{25}\u{26}\u{27}\u{28}\u{29}\u{2a}\u{2b}\u{2c}\u{2d}\u{2e}\u{2f}\u{30}\u{31}\u{32}\u{33}\u{34}\u{35}\u{36}\u{37}\u{38}\u{39}\u{3a}\u{3b}\u{3c}\u{3d}\u{3e}\u{3f}\u{40}\u{41}\u{42}\u{43}\u{44}\u{45}\u{46}\u{47}\u{48}\u{49}\u{4a}\u{4b}\u{4c}\u{4d}\u{4e}\u{4f}\u{50}\u{51}\u{52}\u{53}\u{54}\u{55}\u{56}\u{57}\u{58}\u{59}\u{5a}\u{5b}\u{5c}\u{5d}\u{5e}\u{5f}\u{60}\u{61}\u{62}\u{63}\u{64}\u{65}\u{66}\u{67}\u{68}\u{69}\u{6a}\u{6b}\u{6c}\u{6d}\u{6e}\u{6f}\u{70}\u{71}\u{72}\u{73}\u{74}\u{75}\u{76}\u{77}\u{78}\u{79}\u{7a}\u{7b}\u{7c}\u{7d}\u{7e}\u{7f}\u{80}\u{81}\u{82}\u{83}\u{84}\u{85}\u{86}\u{87}\u{88}\u{89}\u{8a}\u{8b}\u{8c}\u{8d}\u{8e}\u{8f}\u{90}\u{91}\u{92}\u{93}\u{94}\u{95}\u{96}\u{97}\u{98}\u{99}\u{9a}\u{9b}\u{9c}\u{9d}\u{9e}\u{9f}\u{a0}\u{a1}\u{a2}\u{a3}\u{a4}\u{a5}\u{a6}\u{a7}\u{a8}\u{a9}\u{aa}\u{ab}\u{ac}\u{ad}\u{ae}\u{af}\u{b0}\u{b1}\u{b2}\u{b3}\u{b4}\u{b5}\u{b6}\u{b7}\u{b8}\u{b9}\u{ba}\u{bb}\u{bc}\u{bd}\u{be}\u{bf}\u{c0}\u{c1}\u{c2}\u{c3}\u{c4}\u{c5}\u{c6}\u{c7}\u{c8}\u{c9}\u{ca}\u{cb}\u{cc}\u{cd}\u{ce}\u{cf}\u{d0}\u{d1}\u{d2}\u{d3}\u{d4}\u{d5}\u{d6}\u{d7}\u{d8}\u{d9}\u{da}\u{db}\u{dc}\u{dd}\u{de}\u{df}\u{e0}\u{e1}\u{e2}\u{e3}\u{e4}\u{e5}\u{e6}\u{e7}\u{e8}\u{e9}\u{ea}\u{eb}\u{ec}\u{ed}\u{ee}\u{ef}\u{f0}\u{f1}\u{f2}\u{f3}\u{f4}\u{f5}\u{f6}\u{f7}\u{f8}\u{f9}\u{fa}\u{fb}\u{fc}\u{fd}\u{fe}\u{ff}";
    proof {
        reveal_strlit("\u{0}\u{1}\u{2}\u{3}\u{4}\u{5}\u{6}\u{7}\u{8}\u{9}\u{a}\u{b}\u{c}\u{d}\u{e}\u{f}\u{10}\u{11}\u{12}\u{13}\u{14}\u{15}\u{16}\u{17}\u{18}\u{19}\u{1a}\u{1b}\u{1c}\u{1d}\u{1e}\u{1f}\u{20}\u{21}\u{22}\u{23}\u{24}\u{25}\u{26}\u{27}\u{28}\u{29}\u{2a}\u{2b}\u{2c}\u{2d}\u{2e}\u{2f}\u{30}\u{31}\u{32}\u{33}\u{34}\u{35}\u{36}\u{37}\u{38}\u{39}\u{3a}\u{3b}\u{3c}\u{3d}\u{3e}\u{3f}\u{40}\u{41}\u{42}\u{43}\u{44}\u{45}\u{46}\u{47}\u{48}\u{49}\u{4a}\u{4b}\u{4c}\u{4d}\u{4e}\u{4f}\u{50}\u{51}\u{52}\u{53}\u{54}\u{55}\u{56}\u{57}\u{58}\u{59}\u{5a}\u{5b}\u{5c}\u{5d}\u{5e}\u{5f}\u{60}\u{61}\u{62}\u{63}\u{64}\u{65}\u{66}\u{67}\u{68}\u{69}\u{6a}\u{6b}\u{6c}\u{6d}\u{6e}\u{6f}\u{70}\u{71}\u{72}\u{73}\u{74}\u{75}\u{76}\u{77}\u{78}\u{79}\u{7a}\u{7b}\u{7c}\u{7d}\u{7e}\u{7f}\u{80}\u{81}\u{82}\u{83}\u{84}\u{85}\u{86}\u{87}\u{88}\u{89}\u{8a}\u{8b}\u{8c}\u{8d}\u{8e}\u{8f}\u{90}\u{91}\u{92}\u{93}\u{94}\u{95}\u{96}\u{97}\u{98}\u{99}\u{9a}\u{9b}\u{9c}\u{9d}\u{9e}\u{9f}\u{a0}\u{a1}\u{a2}\u{a3}\u{a4}\u{a5}\u{a6}\u{a7}\u{a8}\u{a9}\u{aa}\u{ab}\u{ac}\u{ad}\u{ae}\u{af}\u{b0}\u{b1}\u{b2}\u{b3}\u{b4}\u{b5}\u{b6}\u{b7}\u{b8}\u{b9}\u{ba}\u{bb}\u{bc}\u{bd}\u{be}\u{bf}\u{c0}\u{c1}\u{c2}\u{c3}\u{c4}\u{c5}\u{c6}\u{c7}\u{c8}\u{c9}\u{ca}\u{cb}\u{cc}\u{cd}\u{ce}\u{cf}\u{d0}\u{d1}\u{d2}\u{d3}\u{d4}\u{d5}\u{d6}\u{d7}\u{d8}\u{d9}\u{da}\u{db}\u{dc}\u{dd}\u{de}\u{df}\u{e0}\u{e1}\u{e2}\u{e3}\u{e4}\u{e5}\u{e6}\u{e7}\u{e8}\u{e9}\u{ea}\u{eb}\u{ec}\u{ed}\u{ee}\u{ef}\u{f0}\u{f1}\u{f2}\u{f3}\u{f4}\u{f5}\u{f6}\u{f7}\u{f8}\u{f9}\u{fa}\u{fb}\u{fc}\u{fd}\u{fe}\u{ff}");
    }
    assert(table@.len() == 256);
    assert(table@[b as int] == b as char);
    let i = b as usize;
    let one = table.substring_char(i, i + 1);
    s.append(one);
    assert(one@ =~= seq![b as char]);
}

/// The position of the first terminator at or after `from`, or the length of
/// `t` where there is none.
fn find_terminator(t: &Vec<u8>, from: usize) -> (i: usize)
    requires
        from <= t.len(),
    ensures
        first_terminator(t@, from as int, i as int),
{
    let mut i = from;
    while i < t.len() && t[i] != 255
        invariant
            from <= i <= t.len(),
            forall|j: int| from <= j < i ==> t@[j] != 255u8,
        decreases t.len() - i,
    {
        i += 1;
    }
    i
}

/// The bytes `t[from..to]` read back as text.
fn decode_text(t: &Vec<u8>, from: usize, to: usize) -> (s: String)
    requires
        from <= to <= t.len(),
    ensures
        s@ == latin1(t@.subrange(from as int, to as int)),
{
    let mut s = String::new();
    let mut i = from;
    while i < to
        invariant
            from <= i <= to <= t.len(),
            s@ == latin1(t@.subrange(from as int, i as int)),
        decreases to - i,
    {
        proof {
            assert(t@.subrange(from as int, i + 1) =~= t@.subrange(from as int, i as int).push(t@[i as int]));
        }
        push_char(&mut s, t[i]);
        i += 1;
        assert(s@ =~= latin1(t@.subrange(from as int, i as int)));
    }
    s
}

/// An incremental parser of messages: it receives one byte at a time and
/// gives back each message once its frame is complete.
#[derive(Clone, Debug)]
pub struct ProtoParser {
    tokens: Vec<u8>,
    kind: usize,
}

impl View for ProtoParser {
    /// The bytes received so far of the frame under way.
    type V = Seq<u8>;

    closed spec fn view(&self) -> Seq<u8> {
        self.tokens@
    }
}

impl ProtoParser {
    /// The bytes held are a pending frame, and `kind` is its kind.
    pub closed spec fn wf(&self) -> bool {
        &&& pending(self.tokens@)
        &&& self.kind == kind_of(self.tokens@)
    }

    /// The kind of the frame under way that the parser keeps.
    pub closed spec fn frame_kind(&self) -> usize {
        self.kind
    }

    /// A parser with no frame under way.
    pub fn new() -> (p: Self)
        ensures
            p.wf(),
            p@ == Seq::<u8>::empty(),
            p.frame_kind() == usize::MAX,
    {
        ProtoParser { tokens: Vec::new(), kind: usize::MAX }
    }

    /// Takes one byte into the frame under way and tells whether the frame
    /// is complete; the caller clears a completed frame.
    fn inner_parse(&mut self, byte: u8) -> (r: Option<Value>)
        ensures
            old(self).wf() ==> final(self).kind == kind_of(final(self)@),
            old(self).wf() && old(self)@.len() == 0 ==> r is None && final(self)@ == step(
                old(self)@,
                byte,
            ).0,
            old(self).wf() && old(self)@.len() > 0 ==> final(self)@ == old(self)@.push(byte)
                && match r {
                Some(v) => is_frame(final(self)@, v@),
                None => !completes(final(self)@),
            },
    {
        if self.tokens.len() == 0 {
            match byte as usize {
                LCDWRITE_VAL_ID => self.kind = LCDWRITE_VAL_ID,
                LCDCLEAR_VAL_ID => self.kind = LCDCLEAR_VAL_ID,
                LED_1_VAL_ID => self.kind = LED_1_VAL_ID,
                HANDSHAKE_VAL_ID => self.kind = HANDSHAKE_VAL_ID,
                RECIEVED_VAL_ID => self.kind = RECIEVED_VAL_ID,
                _ => self.kind = usize::MAX,
            }
            if self.kind != usize::MAX {
                self.tokens.push(byte);
                assert(self.tokens@ =~= seq![byte]);
            }
            assert(self@ =~= step(old(self)@, byte).0);
            None
        } else {
            self.tokens.push(byte);
            let ghost t = self.tokens@;
            assert(t[0] == old(self)@[0]);
            let len = self.tokens.len();
            match self.kind {
                LCDWRITE_VAL_ID => {
                    proof {
                        if old(self).wf() {
                            assert forall|m: Message| !(#[trigger] is_frame(t, m)) || m is Lcdwrite by {}
                        }
                    }
                    if len < 3 {
                        proof { lemma_not_lcd_frame(t, 0, 0, 0); }
                        return None;
                    }
                    let p = find_terminator(&self.tokens, 1);
                    if p >= len - 1 {
                        proof { lemma_not_lcd_frame(t, 1, p as int, 0); }
                        return None;
                    }
                    let q = find_terminator(&self.tokens, p + 1);
                    if q != len - 1 {
                        proof { lemma_not_lcd_frame(t, 2, p as int, q as int); }
                        return None;
                    }
                    let l1 = decode_text(&self.tokens, 1, p);
                    let l2 = decode_text(&self.tokens, p + 1, q);
                    proof {
                        if old(self).wf() {
                            let a = t.subrange(1, p as int);
                            let b = t.subrange(p + 1, q as int);
                            assert(lcd_frame(a, b) =~= t);
                            assert(no_terminator(a));
                            assert(no_terminator(b));
                        }
                    }
                    Some(Value::Lcdwrite(l1, l2))
                },
                LCDCLEAR_VAL_ID => {
                    if len == LCDCLEAR_VAL_LEN {
                        let k = (self.tokens[1] & 1) != 0;
                        proof { lemma_low_bit(t[1]); }
                        Some(Value::Lcdclear(k))
                    } else {
                        None
                    }
                },
                LED_1_VAL_ID => {
                    if len == LED_1_VAL_LEN {
                        let state = (self.tokens[1] & 1) != 0;
                        proof { lemma_low_bit(t[1]); }
                        Some(Value::Led_1(state))
                    } else {
                        None
                    }
                },
                HANDSHAKE_VAL_ID => {
                    if len == HANDSHAKE_VAL_LEN {
                        let side = (self.tokens[1] & 1) != 0;
                        proof { lemma_low_bit(t[1]); }
                        Some(Value::Handshake(side))
                    } else {
                        None
                    }
                },
                RECIEVED_VAL_ID => {
                    if len == RECIEVED_VAL_LEN {
                        let side = (self.tokens[1] & 1) != 0;
                        proof { lemma_low_bit(t[1]); }
                        Some(Value::Recieved(side))
                    } else {
                        None
                    }
                },
                _ => {
                    self.kind = usize::MAX;
                    None
                },
            }
        }
    }

    /// Receives one byte; gives back the message whose frame it completes.
    pub fn parse(&mut self, byte: u8) -> (r: Option<Value>)
        requires
            old(self).wf(),
        ensures
            final(self).wf(),
            (final(self)@, result_view(r)) == step(old(self)@, byte),
            r matches Some(v) ==> is_frame(old(self)@.push(byte), v@),
            pending(final(self)@),
            final(self).frame_kind() == kind_of(final(self)@),
    {
        let r = self.inner_parse(byte);
        if let Some(_) = r {
            self.tokens.clear();
            self.kind = usize::MAX;
        }
        proof {
            if r is Some {
                lemma_step_completes(old(self)@, byte, r->0@);
            }
            law_step_pending(old(self)@, byte);
        }
        r
    }
}

/// The answer to a parse result while the host waits for the controller: a
/// handshake, whatever its side, is answered with the bytes of an
/// acknowledgement `Recieved(true)`; anything else with nothing.
pub fn handshake_reply(r: &Option<Value>) -> (reply: Option<Vec<u8>>)
    ensures
        reply is Some <==> (r matches Some(v) && v@ is Handshake),
        reply matches Some(b) ==> b@ == encode(Message::Recieved(true)),
{
    match r {
        Some(Value::Handshake(_)) => Some(Value::Recieved(true).repr()),
        _ => None,
    }
}

/// A flag message takes as many bytes as the length constant of its kind.
pub proof fn law_flag_lengths(f: bool)
    ensures
        encode(Message::Lcdclear(f)).len() == LCDCLEAR_VAL_LEN,
        encode(Message::Led_1(f)).len() == LED_1_VAL_LEN,
        encode(Message::Handshake(f)).len() == HANDSHAKE_VAL_LEN,
        encode(Message::Recieved(f)).len() == RECIEVED_VAL_LEN,
{
}

proof fn lemma_low_bit(x: u8)
    ensures
        ((x & 1) != 0) == (x % 2 == 1),
{
    assert(((x & 1) != 0) == (x % 2 == 1)) by (bit_vector);
}

/// Where the scan of a frame under way stops short, the bytes are no
/// complete LCD write frame: `stage` 0 is a frame of fewer than three bytes,
/// 1 one whose first terminator `p` is missing or is its last byte
/// after it, 2 one whose second terminator `q` is not its last byte.
proof fn lemma_not_lcd_frame(t: Seq<u8>, stage: int, p: int, q: int)
    requires
        stage == 0 ==> t.len() < 3,
        stage == 1 ==> first_terminator(t, 1, p) && p + 1 >= t.len(),
        stage == 2 ==> first_terminator(t, 1, p) && p + 1 < t.len() && first_terminator(t, p + 1, q) && q + 1 != t.len(),
        0 <= stage <= 2,
    ensures
        forall|a: Seq<u8>, b: Seq<u8>| #[trigger] lcd_frame(a, b) == t && no_terminator(a) && no_terminator(b) ==> false,
{
    assert forall|a: Seq<u8>, b: Seq<u8>| #[trigger] lcd_frame(a, b) == t && no_terminator(a) && no_terminator(b) implies false by {
        lemma_lcd_frame_shape(a, b);
        if stage >= 1 {
            lemma_first_terminator_unique(t, 1, p, a.len() as int + 1);
        }
        if stage == 2 {
            lemma_first_terminator_unique(t, p + 1, q, t.len() - 1);
        }
    }
}

} // verus!
