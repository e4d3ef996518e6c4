//! The line parser: separates the speech from the shouts that the server
//! interleaves with it, and joins a shout that spans several lines into one
//! message.

use vstd::prelude::*;
use crate::text::{
    closes_shout, closes_shout_line, concat_lines, is_header, is_header_line, opens_shout,
    opens_shout_line, remove_crlf, strip_crlf,
};

verus! {

/// What a message carries: a shout, or a line of the speech.
#[derive(Clone, Copy, Debug, PartialEq, Eq, Structural)]
pub enum PayloadKind {
    Houwa,
    Enzetsu,
}

/// A message to hand on to the WebSocket client.
#[derive(Debug)]
pub struct Message {
    pub kind: PayloadKind,
    pub payload: String,
}

/// The mathematical value of a message.
pub struct MessageModel {
    pub kind: PayloadKind,
    pub payload: Seq<char>,
}

impl View for Message {
    type V = MessageModel;

    open spec fn view(&self) -> MessageModel {
        MessageModel { kind: self.kind, payload: self.payload@ }
    }
}

/// The value of an optional message.
pub open spec fn emitted(r: Option<Message>) -> Option<MessageModel> {
    match r {
        Some(m) => Some(m@),
        None => None,
    }
}

/// The mathematical state of a parser: the lines of the shout read so far,
/// and whether a shout is open.
pub struct ParserModel {
    pub pending: Seq<Seq<char>>,
    pub in_houwa: bool,
}

/// The state of a parser that has read nothing, and of one between shouts.
pub open spec fn idle() -> ParserModel {
    ParserModel { pending: Seq::empty(), in_houwa: false }
}

/// The effect of one line on the parser: its next state and what it emits.
///
/// - a header line is ignored;
/// - outside a shout, a line that opens one and also closes it is emitted as
///   a shout as it stands; one that opens without closing starts a shout;
/// - inside a shout, every line is kept; the one that closes it makes the
///   shout emitted as all its lines joined with every CR LF removed;
/// - any other line is a line of the speech, emitted as it stands.
pub open spec fn parse_step(st: ParserModel, line: Seq<char>) -> (ParserModel, Option<MessageModel>) {
    if is_header_line(line) {
        (st, None)
    } else if opens_shout(line) && !st.in_houwa {
        if closes_shout(line) {
            (st, Some(MessageModel { kind: PayloadKind::Houwa, payload: line }))
        } else {
            (ParserModel { pending: st.pending.push(line), in_houwa: true }, None)
        }
    } else if st.in_houwa {
        if closes_shout(line) {
            (
                idle(),
                Some(
                    MessageModel {
                        kind: PayloadKind::Houwa,
                        payload: strip_crlf(st.pending.push(line).flatten()),
                    },
                ),
            )
        } else {
            (ParserModel { pending: st.pending.push(line), in_houwa: true }, None)
        }
    } else {
        (st, Some(MessageModel { kind: PayloadKind::Enzetsu, payload: line }))
    }
}

/// The consistent states: lines are held exactly while a shout is open, the
/// first of them opened it, and none of them is a header or closes a shout.
pub open spec fn parser_wf(st: ParserModel) -> bool {
    &&& st.in_houwa <==> st.pending.len() > 0
    &&& st.pending.len() > 0 ==> opens_shout(st.pending[0])
    &&& forall|i: int|
        0 <= i < st.pending.len() ==> !is_header_line(#[trigger] st.pending[i]) && !closes_shout(
            st.pending[i],
        )
}

/// Splits the received text into shouts and lines of the speech.
#[derive(Debug)]
pub struct Parser {
    line_buf: Vec<String>,
    in_houwa: bool,
}

impl View for Parser {
    type V = ParserModel;

    closed spec fn view(&self) -> ParserModel {
        ParserModel { pending: self.line_buf@.map_values(|l: String| l@), in_houwa: self.in_houwa }
    }
}

impl Parser {
    /// A parser that has read nothing.
    pub fn new() -> (p: Self)
        ensures
            p@ == idle(),
    {
        let p = Self { line_buf: Vec::new(), in_houwa: false };
        assert(p@.pending =~= Seq::<Seq<char>>::empty());
        p
    }

    /// Whether the line opens a shout: it begins with `>>`, plain or after the
    /// escapes that print it in red or in green. (A line of the speech begins
    /// with a space, so a `>>` inside the speech is not taken for one.)
    pub fn is_start_of_houwa(target: &str) -> (r: bool)
        ensures
            r == opens_shout(target@),
    {
        opens_shout_line(target)
    }

    /// Reads one line (with its line ending) and returns the message that it
    /// completes, if any.
    pub fn parse(&mut self, buf: &str) -> (r: Option<Message>)
        ensures
            (final(self)@, emitted(r)) == parse_step(old(self)@, buf@),
            parser_wf(old(self)@) ==> parser_wf(final(self)@),
    {
        proof {
            lemma_step_keeps_wf(self@, buf@);
        }
        let ghost old_view = self@;
        if is_header(buf) {
            None
        } else if Self::is_start_of_houwa(buf) && !self.in_houwa {
            if closes_shout_line(buf) {
                Some(Message { kind: PayloadKind::Houwa, payload: buf.to_owned() })
            } else {
                self.line_buf.push(buf.to_owned());
                self.in_houwa = true;
                assert(self@.pending =~= old_view.pending.push(buf@));
                None
            }
        } else if self.in_houwa {
            self.line_buf.push(buf.to_owned());
            assert(self@.pending =~= old_view.pending.push(buf@));
            if closes_shout_line(buf) {
                let joined = concat_lines(&self.line_buf);
                let payload = remove_crlf(joined.as_str());
                self.line_buf.clear();
                self.in_houwa = false;
                assert(self@.pending =~= Seq::<Seq<char>>::empty());
                Some(Message { kind: PayloadKind::Houwa, payload })
            } else {
                None
            }
        } else {
            Some(Message { kind: PayloadKind::Enzetsu, payload: buf.to_owned() })
        }
    }
}

/// Every step keeps the parser's state consistent.
pub proof fn lemma_step_keeps_wf(st: ParserModel, line: Seq<char>)
    ensures
        parser_wf(st) ==> parser_wf(parse_step(st, line).0),
{
    if parser_wf(st) {
        let next = parse_step(st, line).0;
        if !is_header_line(line) && (opens_shout(line) && !st.in_houwa || st.in_houwa)
            && !closes_shout(line) {
            assert(next.pending == st.pending.push(line));
            assert forall|i: int| 0 <= i < next.pending.len() implies !is_header_line(
                #[trigger] next.pending[i],
            ) && !closes_shout(next.pending[i]) by {
                if i < st.pending.len() {
                    assert(next.pending[i] == st.pending[i]);
                }
            }
            if !st.in_houwa {
                assert(st.pending.len() == 0);
                assert(next.pending[0] == line);
            } else {
                assert(next.pending[0] == st.pending[0]);
            }
        }
    }
}


/// The effect of a sequence of lines, fed one after another: the final state
/// and what each line emitted, in order.
pub open spec fn run(st: ParserModel, lines: Seq<Seq<char>>) -> (ParserModel, Seq<Option<MessageModel>>)
    decreases lines.len(),
{
    if lines.len() == 0 {
        (st, Seq::empty())
    } else {
        let before = run(st, lines.drop_last());
        let after = parse_step(before.0, lines.last());
        (after.0, before.1.push(after.1))
    }
}

/// A line that opens a shout is never taken for the header.
pub proof fn lemma_opening_is_not_header(line: Seq<char>)
    requires
        opens_shout(line),
    ensures
        !is_header_line(line),
{
    let b = crate::text::line_bytes(line);
    assert(b.len() >= 2);
    if crate::text::plain_opening().is_prefix_of(b) {
        assert(b[0] == crate::text::plain_opening()[0]);
    } else if crate::text::red_opening().is_prefix_of(b) {
        assert(b[0] == crate::text::red_opening()[0]);
    } else {
        assert(b[0] == crate::text::green_opening()[0]);
    }
    assert(b[0] != crate::text::header_bytes()[0]);
}

/// A fresh parser is in a consistent state.
pub proof fn law_fresh_parser_is_consistent()
    ensures
        parser_wf(idle()),
{
}

/// A header line changes nothing and emits nothing, whatever the state.
pub proof fn law_header_is_ignored(st: ParserModel, line: Seq<char>)
    requires
        is_header_line(line),
    ensures
        parse_step(st, line) == (st, None::<MessageModel>),
{
}

/// Outside a shout, a line that is neither the header nor the opening of a
/// shout is a line of the speech: it is emitted unchanged and the state stays.
pub proof fn law_speech_passes_through(st: ParserModel, line: Seq<char>)
    requires
        !st.in_houwa,
        !is_header_line(line),
        !opens_shout(line),
    ensures
        parse_step(st, line) == (st, Some(MessageModel { kind: PayloadKind::Enzetsu, payload: line })),
{
}

/// Outside a shout, a line that both opens and closes a shout is emitted as a
/// shout exactly as it was read (line ending included), and the state stays.
pub proof fn law_one_line_shout(st: ParserModel, line: Seq<char>)
    requires
        !st.in_houwa,
        opens_shout(line),
        closes_shout(line),
    ensures
        parse_step(st, line) == (st, Some(MessageModel { kind: PayloadKind::Houwa, payload: line })),
{
    lemma_opening_is_not_header(line);
}

/// The lines of a shout before its closing line emit nothing and are all kept.
proof fn lemma_shout_in_progress(opening: Seq<char>, middle: Seq<Seq<char>>)
    requires
        opens_shout(opening),
        !closes_shout(opening),
        forall|i: int|
            0 <= i < middle.len() ==> !is_header_line(#[trigger] middle[i]) && !closes_shout(
                middle[i],
            ),
    ensures
        run(idle(), seq![opening] + middle) == (
            ParserModel { pending: seq![opening] + middle, in_houwa: true },
            Seq::new(middle.len() + 1, |i: int| None::<MessageModel>),
        ),
    decreases middle.len(),
{
    let lines = seq![opening] + middle;
    let nones = Seq::new(middle.len() + 1, |i: int| None::<MessageModel>);
    let held = ParserModel { pending: lines, in_houwa: true };
    if middle.len() == 0 {
        lemma_opening_is_not_header(opening);
        assert(lines.drop_last() =~= Seq::<Seq<char>>::empty());
        assert(lines.last() == opening);
        let before = run(idle(), lines.drop_last());
        assert(before == (idle(), Seq::<Option<MessageModel>>::empty()));
        let after = parse_step(idle(), opening);
        assert(idle().pending.push(opening) =~= lines);
        assert(after.0 == held);
        assert(Seq::<Option<MessageModel>>::empty().push(None) =~= nones);
        assert(run(idle(), lines) == (after.0, before.1.push(after.1)));
    } else {
        let shorter = middle.drop_last();
        let last = middle[middle.len() - 1];
        assert forall|i: int| 0 <= i < shorter.len() implies !is_header_line(#[trigger] shorter[i])
            && !closes_shout(shorter[i]) by {
            assert(shorter[i] == middle[i]);
        }
        lemma_shout_in_progress(opening, shorter);
        assert(lines.drop_last() =~= seq![opening] + shorter);
        assert(lines.last() == last);
        let before = run(idle(), lines.drop_last());
        let prev_nones = Seq::new(shorter.len() + 1, |i: int| None::<MessageModel>);
        assert(before.0 == ParserModel { pending: seq![opening] + shorter, in_houwa: true });
        assert(before.1 == prev_nones);
        assert(!is_header_line(last) && !closes_shout(last));
        let after = parse_step(before.0, last);
        assert((seq![opening] + shorter).push(last) =~= lines);
        assert(after.0 == held);
        assert(after.1 == None::<MessageModel>);
        assert(prev_nones.push(None) =~= nones);
        assert(run(idle(), lines) == (after.0, before.1.push(after.1)));
    }
}

/// A shout over several lines: from a fresh parser, a line that opens a shout
/// without closing it, any lines that are neither the header nor a closing
/// one, and a closing line emit nothing until the closing line, which emits one
/// shout whose payload is all those lines joined with every CR LF removed; the
/// parser is then fresh again.
pub proof fn law_shout_assembly(opening: Seq<char>, middle: Seq<Seq<char>>, closing: Seq<char>)
    requires
        opens_shout(opening),
        !closes_shout(opening),
        forall|i: int|
            0 <= i < middle.len() ==> !is_header_line(#[trigger] middle[i]) && !closes_shout(
                middle[i],
            ),
        !is_header_line(closing),
        closes_shout(closing),
    ensures
        ({
            let lines = seq![opening] + middle + seq![closing];
            let (end, out) = run(idle(), lines);
            &&& end == idle()
            &&& out.len() == lines.len()
            &&& forall|i: int| 0 <= i < lines.len() - 1 ==> #[trigger] out[i] == None::<MessageModel>
            &&& out[lines.len() - 1] == Some(
                MessageModel { kind: PayloadKind::Houwa, payload: strip_crlf(lines.flatten()) },
            )
        }),
{
    lemma_shout_in_progress(opening, middle);
    let lines = seq![opening] + middle + seq![closing];
    let body = seq![opening] + middle;
    assert(lines.drop_last() =~= body);
    assert(lines.last() == closing);
    assert(body.push(closing) =~= lines);
}

} // verus!
