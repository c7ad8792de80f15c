//! The conversation: Zhang (the server side) greets, Li (the client side)
//! asks two questions per round, and each answers what the other says.

use vstd::prelude::*;
use crate::message::RequestResponse;

verus! {

/// How many rounds each side speaks.
pub const SAYTOTAL: u32 = 100000;

/// How many lines each side listens to before it stops.
pub const LISTENTOTAL: u32 = 300000;

/// The two people talking.
#[derive(Debug, Clone, Copy, PartialEq, Eq, Structural)]
pub enum Speaker {
    Zhang,
    Li,
}

/// Every line of the conversation.
#[derive(Debug, Clone, Copy, PartialEq, Eq, Structural)]
pub enum Phrase {
    /// Zhang: "Have you eaten?"
    Z0,
    /// Li: "Just ate."
    L1,
    /// Li: "Where are you off to?"
    L2,
    /// Zhang: "Full, so I'm out for a stroll."
    Z3,
    /// Li: "Drop by my place sometime."
    L4,
    /// Zhang: "I'll come and pay my respects to your mother."
    Z5,
}

/// The text of a line.
pub open spec fn phrase_text(p: Phrase) -> Seq<char> {
    match p {
        Phrase::Z0 => "吃了没，您吶?"@,
        Phrase::L1 => "刚吃。"@,
        Phrase::L2 => "您这，嘛去？"@,
        Phrase::Z3 => "嗨！吃饱了溜溜弯儿。"@,
        Phrase::L4 => "有空家里坐坐啊。"@,
        Phrase::Z5 => "回头去给老太太请安！"@,
    }
}

/// Who says a line.
pub open spec fn speaker_of(p: Phrase) -> Speaker {
    match p {
        Phrase::Z0 | Phrase::Z3 | Phrase::Z5 => Speaker::Zhang,
        Phrase::L1 | Phrase::L2 | Phrase::L4 => Speaker::Li,
    }
}

/// The other person.
pub open spec fn other(who: Speaker) -> Speaker {
    match who {
        Speaker::Zhang => Speaker::Li,
        Speaker::Li => Speaker::Zhang,
    }
}

/// What `listener` answers when hearing `p`, if anything.
pub open spec fn reply_to(listener: Speaker, p: Phrase) -> Option<Phrase> {
    match (listener, p) {
        (Speaker::Zhang, Phrase::L2) => Some(Phrase::Z3),
        (Speaker::Zhang, Phrase::L4) => Some(Phrase::Z5),
        (Speaker::Li, Phrase::Z0) => Some(Phrase::L1),
        _ => None,
    }
}

/// The line whose text is `text`, if there is one.
pub open spec fn phrase_of(text: Seq<char>) -> Option<Phrase> {
    if text == phrase_text(Phrase::Z0) {
        Some(Phrase::Z0)
    } else if text == phrase_text(Phrase::L1) {
        Some(Phrase::L1)
    } else if text == phrase_text(Phrase::L2) {
        Some(Phrase::L2)
    } else if text == phrase_text(Phrase::Z3) {
        Some(Phrase::Z3)
    } else if text == phrase_text(Phrase::L4) {
        Some(Phrase::L4)
    } else if text == phrase_text(Phrase::Z5) {
        Some(Phrase::Z5)
    } else {
        None
    }
}

/// How a listener takes a message.
pub enum Heard {
    /// It answers with this serial number and text.
    Reply(u32, Seq<char>),
    /// It understood and says nothing.
    Silent,
    /// It does not understand and stops listening.
    Puzzled,
}

/// How `listener` takes the message `(serial, text)`: a line of the other
/// person is understood and answered as [`reply_to`] says, under the same
/// serial number; anything else puzzles the listener.
pub open spec fn reaction(listener: Speaker, serial: u32, text: Seq<char>) -> Heard {
    match phrase_of(text) {
        Some(p) => {
            if speaker_of(p) == other(listener) {
                match reply_to(listener, p) {
                    Some(q) => Heard::Reply(serial, phrase_text(q)),
                    None => Heard::Silent,
                }
            } else {
                Heard::Puzzled
            }
        },
        None => Heard::Puzzled,
    }
}

/// The text of a line.
pub fn text_of(p: Phrase) -> (s: &'static str)
    ensures
        s@ == phrase_text(p),
{
    match p {
        Phrase::Z0 => "吃了没，您吶?",
        Phrase::L1 => "刚吃。",
        Phrase::L2 => "您这，嘛去？",
        Phrase::Z3 => "嗨！吃饱了溜溜弯儿。",
        Phrase::L4 => "有空家里坐坐啊。",
        Phrase::Z5 => "回头去给老太太请安！",
    }
}

/// Whether `text` is the text of `p`.
fn says(text: &String, p: Phrase) -> (b: bool)
    ensures
        b == (text@ == phrase_text(p)),
{
    let expected: String = text_of(p).to_owned();
    *text == expected
}

/// The line whose text is `text`, if there is one.
pub fn recognize(text: &String) -> (res: Option<Phrase>)
    ensures
        res == phrase_of(text@),
{
    if says(text, Phrase::Z0) {
        Some(Phrase::Z0)
    } else if says(text, Phrase::L1) {
        Some(Phrase::L1)
    } else if says(text, Phrase::L2) {
        Some(Phrase::L2)
    } else if says(text, Phrase::Z3) {
        Some(Phrase::Z3)
    } else if says(text, Phrase::L4) {
        Some(Phrase::L4)
    } else if says(text, Phrase::Z5) {
        Some(Phrase::Z5)
    } else {
        None
    }
}

/// Every line is recognized from its text: no two lines share a text.
pub proof fn lemma_phrase_of_text(p: Phrase)
    ensures
        phrase_of(phrase_text(p)) == Some(p),
{
    reveal_strlit("吃了没，您吶?");
    reveal_strlit("刚吃。");
    reveal_strlit("您这，嘛去？");
    reveal_strlit("嗨！吃饱了溜溜弯儿。");
    reveal_strlit("有空家里坐坐啊。");
    reveal_strlit("回头去给老太太请安！");
    assert(phrase_text(Phrase::Z0).len() == 7);
    assert(phrase_text(Phrase::L1).len() == 3);
    assert(phrase_text(Phrase::L2).len() == 6);
    assert(phrase_text(Phrase::Z3).len() == 10);
    assert(phrase_text(Phrase::L4).len() == 8);
    assert(phrase_text(Phrase::Z5).len() == 10);
    assert(phrase_text(Phrase::Z3)[0] != phrase_text(Phrase::Z5)[0]);
}

/// Who says a line.
pub fn speaker(p: Phrase) -> (who: Speaker)
    ensures
        who == speaker_of(p),
{
    match p {
        Phrase::Z0 | Phrase::Z3 | Phrase::Z5 => Speaker::Zhang,
        Phrase::L1 | Phrase::L2 | Phrase::L4 => Speaker::Li,
    }
}

/// What `listener` answers when hearing `p`, if anything.
pub fn answer(listener: Speaker, p: Phrase) -> (res: Option<Phrase>)
    ensures
        res == reply_to(listener, p),
{
    match (listener, p) {
        (Speaker::Zhang, Phrase::L2) => Some(Phrase::Z3),
        (Speaker::Zhang, Phrase::L4) => Some(Phrase::Z5),
        (Speaker::Li, Phrase::Z0) => Some(Phrase::L1),
        _ => None,
    }
}

/// How a listener takes one message.
pub enum Reaction {
    /// Send this message back.
    Reply(RequestResponse),
    /// Understood; nothing to send.
    Silent,
    /// Not understood; stop listening.
    Puzzled,
}

impl View for Reaction {
    type V = Heard;

    open spec fn view(&self) -> Heard {
        match self {
            Reaction::Reply(r) => Heard::Reply(r.serial, r.payload@),
            Reaction::Silent => Heard::Silent,
            Reaction::Puzzled => Heard::Puzzled,
        }
    }
}

/// One side of the conversation listening: who listens, how many lines it
/// has understood, and how many it listens to in all.
pub struct Listener {
    pub who: Speaker,
    pub heard: u32,
    pub total: u32,
}

impl Listener {
    /// A listener that has heard nothing yet and stops after `total` lines.
    pub fn new(who: Speaker, total: u32) -> (l: Listener)
        ensures
            l.who == who,
            l.heard == 0,
            l.total == total,
    {
        Listener { who, heard: 0, total }
    }

    /// Whether the listener has heard all the lines it waits for.
    pub fn done(&self) -> (b: bool)
        ensures
            b == (self.heard >= self.total),
    {
        self.heard >= self.total
    }

    /// Takes one message: answers it, keeps quiet, or is puzzled. Every
    /// message but a puzzling one counts as heard.
    pub fn hear(&mut self, msg: &RequestResponse) -> (r: Reaction)
        requires
            old(self).heard < old(self).total,
        ensures
            r@ == reaction(old(self).who, msg.serial, msg.payload@),
            final(self).who == old(self).who,
            final(self).total == old(self).total,
            final(self).heard == (if r@ is Puzzled { old(self).heard as int } else { old(self).heard + 1 }),
    {
        match recognize(&msg.payload) {
            Some(p) => {
                if speaker(p) == other_of(self.who) {
                    self.heard = self.heard + 1;
                    match answer(self.who, p) {
                        Some(q) => Reaction::Reply(
                            RequestResponse { serial: msg.serial, payload: text_of(q).to_owned() },
                        ),
                        None => Reaction::Silent,
                    }
                } else {
                    Reaction::Puzzled
                }
            },
            None => Reaction::Puzzled,
        }
    }
}

/// The other person.
pub fn other_of(who: Speaker) -> (o: Speaker)
    ensures
        o == other(who),
{
    match who {
        Speaker::Zhang => Speaker::Li,
        Speaker::Li => Speaker::Zhang,
    }
}

/// The lines `who` says in one round, in order.
pub open spec fn round_phrases(who: Speaker) -> Seq<Phrase> {
    match who {
        Speaker::Zhang => seq![Phrase::Z0],
        Speaker::Li => seq![Phrase::L2, Phrase::L4],
    }
}

/// One side of the conversation speaking: who speaks, the serial number of
/// its next line, and how many rounds are left.
pub struct Sayer {
    pub who: Speaker,
    pub next_serial: u32,
    pub rounds_left: u32,
}

impl Sayer {
    /// The serial numbers of all the lines still to be said fit in a `u32`.
    pub open spec fn wf(&self) -> bool {
        self.next_serial + self.rounds_left * round_phrases(self.who).len() <= u32::MAX
    }

    /// A speaker about to say `rounds` rounds, numbering its lines from 0.
    pub fn new(who: Speaker, rounds: u32) -> (s: Sayer)
        requires
            rounds * round_phrases(who).len() <= u32::MAX,
        ensures
            s.wf(),
            s.who == who,
            s.next_serial == 0,
            s.rounds_left == rounds,
    {
        Sayer { who, next_serial: 0, rounds_left: rounds }
    }

    /// The lines of the next round, numbered consecutively; none once all
    /// rounds are said.
    pub fn next_round(&mut self) -> (lines: Vec<RequestResponse>)
        requires
            old(self).wf(),
        ensures
            final(self).wf(),
            final(self).who == old(self).who,
            old(self).rounds_left == 0 ==> lines@.len() == 0 && *final(self) == *old(self),
            old(self).rounds_left > 0 ==> {
                let k = round_phrases(old(self).who).len();
                &&& final(self).rounds_left == old(self).rounds_left - 1
                &&& final(self).next_serial == old(self).next_serial + k
                &&& lines@.len() == k
                &&& forall|i: int|
                    0 <= i < k ==> (#[trigger] lines@[i]).serial == old(self).next_serial + i
                        && lines@[i].payload@ == phrase_text(round_phrases(old(self).who)[i])
            },
    {
        let mut lines: Vec<RequestResponse> = Vec::new();
        if self.rounds_left == 0 {
            return lines;
        }
        proof {
            assert(self.rounds_left * round_phrases(self.who).len() >= round_phrases(self.who).len())
                by (nonlinear_arith)
                requires
                    self.rounds_left >= 1,
            ;
            assert((self.rounds_left - 1) * round_phrases(self.who).len() == self.rounds_left
                * round_phrases(self.who).len() - round_phrases(self.who).len()) by (nonlinear_arith);
        }
        match self.who {
            Speaker::Zhang => {
                lines.push(RequestResponse { serial: self.next_serial, payload: text_of(Phrase::Z0).to_owned() });
                self.next_serial = self.next_serial + 1;
            },
            Speaker::Li => {
                lines.push(RequestResponse { serial: self.next_serial, payload: text_of(Phrase::L2).to_owned() });
                lines.push(
                    RequestResponse { serial: self.next_serial + 1, payload: text_of(Phrase::L4).to_owned() },
                );
                self.next_serial = self.next_serial + 2;
            },
        }
        self.rounds_left = self.rounds_left - 1;
        lines
    }
}

/// Every line is understood by the person it is said to.
pub proof fn lemma_every_line_understood(p: Phrase, serial: u32)
    ensures
        !(reaction(other(speaker_of(p)), serial, phrase_text(p)) is Puzzled),
{
    lemma_phrase_of_text(p);
}

/// An answer is said by the one who answers, is understood, and is not
/// answered in turn: every exchange ends after at most one reply.
pub proof fn lemma_answers_end_exchange(listener: Speaker, p: Phrase, q: Phrase, serial: u32)
    requires
        speaker_of(p) == other(listener),
        reply_to(listener, p) == Some(q),
    ensures
        speaker_of(q) == listener,
        reaction(listener, serial, phrase_text(p)) == Heard::Reply(serial, phrase_text(q)),
        reaction(other(listener), serial, phrase_text(q)) == Heard::Silent,
{
    lemma_phrase_of_text(p);
    lemma_phrase_of_text(q);
}

/// How many of the lines `ps` the listener answers.
pub open spec fn answered(listener: Speaker, ps: Seq<Phrase>) -> nat
    decreases ps.len(),
{
    if ps.len() == 0 {
        0
    } else {
        (if reply_to(listener, ps[0]) is Some { 1nat } else { 0nat }) + answered(listener, ps.drop_first())
    }
}

/// How many lines `who` hears per round: the other person's lines of the
/// round, and the other person's answers to the lines `who` said.
pub open spec fn heard_per_round(who: Speaker) -> nat {
    round_phrases(other(who)).len() + answered(other(who), round_phrases(who))
}

/// Each side hears three lines per round, so over [`SAYTOTAL`] rounds it
/// hears exactly [`LISTENTOTAL`] lines: the number it listens for.
pub proof fn lemma_listen_total_matches(who: Speaker)
    ensures
        heard_per_round(who) == 3,
        LISTENTOTAL == SAYTOTAL * heard_per_round(who),
{
    reveal_with_fuel(answered, 3);
    assert(round_phrases(Speaker::Li).drop_first() =~= seq![Phrase::L4]);
    assert(round_phrases(Speaker::Li).drop_first().drop_first() =~= Seq::<Phrase>::empty());
    assert(round_phrases(Speaker::Zhang).drop_first() =~= Seq::<Phrase>::empty());
}

} // verus!
