//! The command guard between the language model and the spine: a reply is
//! accepted only in one of a few fixed command forms.
use vstd::prelude::*;
use vstd::utf8::{encode_scalar, encode_utf8};
use crate::text::{
    chars_of, char_is_control, decimal, has_prefix, has_prefix_at, is_control, lemma_trim_idempotent,
    push_decimal, trim, trim_bounds,
};

verus! {

/// Largest accepted `WriteMessage` payload, in UTF-8 bytes.
pub const MAX_WRITE_BYTES: usize = 240;

/// A command that the model may give. Anything that is not one of the
/// command forms is `Noop`; a malformed write is `Invalid` with the reason.
#[derive(Debug, Clone, PartialEq)]
pub enum AgentCommand {
    WriteMessage(String),
    QueryStatus,
    Noop,
    Invalid(String),
}

/// An `AgentCommand` with its text as characters.
pub enum CommandView {
    WriteMessage(Seq<char>),
    QueryStatus,
    Noop,
    Invalid(Seq<char>),
}

impl View for AgentCommand {
    type V = CommandView;

    open spec fn view(&self) -> CommandView {
        match self {
            AgentCommand::WriteMessage(s) => CommandView::WriteMessage(s@),
            AgentCommand::QueryStatus => CommandView::QueryStatus,
            AgentCommand::Noop => CommandView::Noop,
            AgentCommand::Invalid(s) => CommandView::Invalid(s@),
        }
    }
}

/// The reason given for a write payload of `n` bytes that is empty or too long.
pub open spec fn size_reason(n: nat) -> Seq<char> {
    "WRITE payload méret hiba: "@ + decimal(n) + " byte"@
}

/// The reason given for a write payload with a control character.
pub open spec fn control_reason() -> Seq<char> {
    "WRITE payload control karaktert tartalmaz"@
}

/// Whether `m` holds a control character other than a line feed.
pub open spec fn has_forbidden_control(m: Seq<char>) -> bool {
    exists|i: int| 0 <= i < m.len() && is_control(#[trigger] m[i]) && m[i] != '\n'
}

/// The command that the text `raw` gives.
pub open spec fn parse_spec(raw: Seq<char>) -> CommandView {
    let t = trim(raw);
    if t.len() == 0 {
        CommandView::Noop
    } else if has_prefix(t, "CMD:WRITE:"@) {
        let msg = trim(t.skip("CMD:WRITE:"@.len() as int));
        let n = encode_utf8(msg).len();
        if msg.len() == 0 || n > MAX_WRITE_BYTES {
            CommandView::Invalid(size_reason(n))
        } else if has_forbidden_control(msg) {
            CommandView::Invalid(control_reason())
        } else {
            CommandView::WriteMessage(msg)
        }
    } else if t == "CMD:STATUS"@ {
        CommandView::QueryStatus
    } else {
        CommandView::Noop
    }
}

/// The guard never lets a raw or oversized write through: a write that
/// `parse` accepts carries 1 to 240 bytes of trimmed text without control
/// characters other than line feeds.
pub proof fn lemma_accepted_writes_are_bounded(raw: Seq<char>)
    ensures
        parse_spec(raw) matches CommandView::WriteMessage(m) ==> {
            &&& 1 <= encode_utf8(m).len() <= MAX_WRITE_BYTES
            &&& !has_forbidden_control(m)
            &&& m == trim(m)
        },
{
    let t = trim(raw);
    if t.len() > 0 && has_prefix(t, "CMD:WRITE:"@) {
        let msg = trim(t.skip("CMD:WRITE:"@.len() as int));
        if msg.len() > 0 {
            lemma_trim_idempotent(t.skip("CMD:WRITE:"@.len() as int));
            lemma_encode_nonempty(msg);
        }
    }
}

proof fn lemma_encode_nonempty(m: Seq<char>)
    requires
        m.len() > 0,
    ensures
        encode_utf8(m).len() >= 1,
{
    assert(encode_utf8(m) == encode_scalar(m[0] as u32) + encode_utf8(m.drop_first()));
}

/// Whether a command is one that acts: a write or a status query.
pub open spec fn executable_spec(c: CommandView) -> bool {
    c is WriteMessage || c is QueryStatus
}

/// Whether `v[c..d]` holds a control character other than a line feed.
fn holds_forbidden_control(v: &Vec<char>, c: usize, d: usize) -> (r: bool)
    requires
        c <= d <= v@.len(),
    ensures
        r == has_forbidden_control(v@.subrange(c as int, d as int)),
{
    let mut i: usize = c;
    while i < d
        invariant
            c <= i <= d,
            d <= v@.len(),
            forall|j: int| c <= j < i ==> !(is_control(#[trigger] v@[j]) && v@[j] != '\n'),
        decreases d - i,
    {
        let ch = v[i];
        if char_is_control(ch) && ch != '\n' {
            assert(v@.subrange(c as int, d as int)[i - c] == ch);
            return true;
        }
        i = i + 1;
    }
    proof {
        let m = v@.subrange(c as int, d as int);
        assert forall|j: int| 0 <= j < m.len() implies !(is_control(#[trigger] m[j]) && m[j] != '\n') by {
            assert(m[j] == v@[c + j]);
        }
    }
    false
}

impl AgentCommand {
    /// Reads the model's reply as a command: `CMD:WRITE:<message>` (the
    /// message trimmed, 1 to 240 bytes, no control character but line
    /// feed), `CMD:STATUS`, or anything else, which is `Noop`.
    pub fn parse(raw: &str) -> (r: Self)
        ensures
            r@ == parse_spec(raw@),
    {
        let v = chars_of(raw);
        let (a, b) = trim_bounds(&v, 0, v.len());
        assert(v@.subrange(0, v@.len() as int) =~= raw@);
        if a == b {
            return AgentCommand::Noop;
        }
        let prefix = chars_of("CMD:WRITE:");
        if has_prefix_at(&v, a, b, &prefix) {
            let (c, d) = trim_bounds(&v, a + prefix.len(), b);
            assert(v@.subrange(a as int, b as int).skip(prefix@.len() as int) =~= v@.subrange(
                a + prefix@.len(),
                b as int,
            ));
            let msg = raw.substring_char(c, d);
            let n = msg.as_bytes().len();
            proof {
                let t = trim(raw@);
                assert(t == v@.subrange(a as int, b as int));
                assert(has_prefix(t, "CMD:WRITE:"@));
                assert(trim(t.skip("CMD:WRITE:"@.len() as int)) == v@.subrange(c as int, d as int));
                assert(msg@ == v@.subrange(c as int, d as int));
                assert(n == encode_utf8(msg@).len());
            }
            if c == d || n > MAX_WRITE_BYTES {
                let mut reason = String::from_str("WRITE payload méret hiba: ");
                push_decimal(&mut reason, n as u64);
                reason.append(" byte");
                return AgentCommand::Invalid(reason);
            }
            if holds_forbidden_control(&v, c, d) {
                return AgentCommand::Invalid(
                    String::from_str("WRITE payload control karaktert tartalmaz"),
                );
            }
            return AgentCommand::WriteMessage(String::from_str(msg));
        }
        let status = chars_of("CMD:STATUS");
        if b - a == status.len() && has_prefix_at(&v, a, b, &status) {
            assert(v@.subrange(a as int, b as int).take(status@.len() as int) =~= v@.subrange(
                a as int,
                b as int,
            ));
            AgentCommand::QueryStatus
        } else {
            proof {
                let t = v@.subrange(a as int, b as int);
                if t == "CMD:STATUS"@ {
                    assert(t.len() == status@.len());
                    assert(t.take(status@.len() as int) =~= t);
                }
            }
            AgentCommand::Noop
        }
    }

    /// Whether the command acts: a write or a status query.
    pub fn is_executable(&self) -> (r: bool)
        ensures
            r == executable_spec(self@),
    {
        match self {
            AgentCommand::WriteMessage(_) => true,
            AgentCommand::QueryStatus => true,
            _ => false,
        }
    }
}

/// The key that stands for a missing API key.
pub open spec fn missing_key() -> Seq<char> {
    "MISSING_KEY"@
}

/// The answer given in place of a model reply when no API key was found.
pub open spec fn missing_key_notice() -> Seq<char> {
    "Hiba: Hiányzik a MINIMAX_API_KEY környezeti változó!"@
}

/// The notice to answer with instead of calling the model: `Some` exactly
/// when the API key is the stand-in for a missing key.
pub fn key_notice(api_key: &str) -> (r: Option<String>)
    ensures
        api_key@ == missing_key() ==> (r matches Some(n) && n@ == missing_key_notice()),
        api_key@ != missing_key() ==> r is None,
{
    let v = chars_of(api_key);
    let m = chars_of("MISSING_KEY");
    assert(v@.subrange(0, v@.len() as int) =~= api_key@);
    if v.len() == m.len() && has_prefix_at(&v, 0, v.len(), &m) {
        assert(api_key@.take(m@.len() as int) =~= api_key@);
        Some(String::from_str("Hiba: Hiányzik a MINIMAX_API_KEY környezeti változó!"))
    } else {
        proof {
            if api_key@ == missing_key() {
                assert(v@.len() == m@.len());
                assert(api_key@.take(m@.len() as int) =~= api_key@);
            }
        }
        None
    }
}

/// The text of the first choice of a model reply, or a notice that the
/// reply had none.
pub fn first_reply(choices: &Vec<String>) -> (r: String)
    ensures
        choices@.len() > 0 ==> r@ == choices@[0]@,
        choices@.len() == 0 ==> r@ == "Nem érkezett válasz az API-tól."@,
{
    if choices.len() > 0 {
        String::from_str(choices[0].as_str())
    } else {
        String::from_str("Nem érkezett válasz az API-tól.")
    }
}

/// Whether a spine message calls for an answer: it is not empty and it is
/// not itself an answer (those start with `AGENT:`).
pub open spec fn calls_for_answer(msg: Seq<char>) -> bool {
    msg.len() > 0 && !has_prefix(msg, "AGENT:"@)
}

/// Whether a spine message calls for an answer: it is not empty and it is
/// not itself an answer (those start with `AGENT:`).
pub fn should_answer(msg: &str) -> (r: bool)
    ensures
        r == calls_for_answer(msg@),
{
    let v = chars_of(msg);
    if v.len() == 0 {
        return false;
    }
    let p = chars_of("AGENT:");
    let starts = has_prefix_at(&v, 0, v.len(), &p);
    assert(v@.subrange(0, v@.len() as int) =~= msg@);
    !starts
}

/// Follows the spine's sequence numbers: each number below the writer's is
/// handed out once, in order.
pub struct SpineCursor {
    pub next: u64,
}

impl SpineCursor {
    /// A cursor that hands out numbers from `start` on.
    pub fn starting_at(start: u64) -> (r: Self)
        ensures
            r.next == start,
    {
        SpineCursor { next: start }
    }

    /// The next number to process, if the writer is past it; the cursor then
    /// moves on by one.
    pub fn step(&mut self, writer_seq: u64) -> (r: Option<u64>)
        ensures
            cursor_step(*old(self), *final(self), writer_seq, r),
    {
        if self.next < writer_seq {
            let s = self.next;
            self.next = self.next + 1;
            Some(s)
        } else {
            None
        }
    }
}

/// One `step` from `old` to `new` with the writer at `writer`, answering `r`:
/// the cursor's number, and a move by one, when the writer is past it;
/// nothing, and no move, otherwise.
pub open spec fn cursor_step(old: SpineCursor, new: SpineCursor, writer: u64, r: Option<u64>) -> bool {
    &&& old.next < writer ==> r == Some(old.next) && new.next == old.next + 1
    &&& old.next >= writer ==> r is None && new.next == old.next
}

/// The numbers handed out in the first `n` answers, in order.
pub open spec fn handed_out(rs: Seq<Option<u64>>, n: nat) -> Seq<u64>
    decreases n,
{
    if n == 0 {
        Seq::empty()
    } else {
        let before = handed_out(rs, (n - 1) as nat);
        match rs[n - 1] {
            Some(s) => before.push(s),
            None => before,
        }
    }
}

/// The numbers from `start` below `end`, in order.
pub open spec fn numbers_from(start: u64, end: u64) -> Seq<u64> {
    Seq::new((end - start) as nat, |i: int| (start + i) as u64)
}

/// Whatever the writer shows at each step, a cursor hands out the numbers
/// from where it started each once, in order, none skipped, and only numbers
/// that the writer had passed at that step.
pub proof fn lemma_cursor_in_order(cs: Seq<SpineCursor>, ws: Seq<u64>, rs: Seq<Option<u64>>)
    requires
        cs.len() == ws.len() + 1,
        rs.len() == ws.len(),
        forall|i: int| 0 <= i < ws.len() ==> #[trigger] cursor_step(cs[i], cs[i + 1], ws[i], rs[i]),
    ensures
        cs[0].next <= cs.last().next,
        handed_out(rs, ws.len()) == numbers_from(cs[0].next, cs.last().next),
        forall|i: int| 0 <= i < ws.len() ==> (#[trigger] rs[i] matches Some(s) ==> s < ws[i]),
    decreases ws.len(),
{
    let n = ws.len();
    if n == 0 {
        assert(handed_out(rs, 0) =~= numbers_from(cs[0].next, cs[0].next));
    } else {
        let cs1 = cs.drop_last();
        let ws1 = ws.drop_last();
        let rs1 = rs.drop_last();
        assert forall|i: int| 0 <= i < ws1.len() implies #[trigger] cursor_step(cs1[i], cs1[i + 1], ws1[i], rs1[i]) by {
            assert(cursor_step(cs[i], cs[i + 1], ws[i], rs[i]));
        }
        lemma_cursor_in_order(cs1, ws1, rs1);
        assert forall|k: nat| k <= ws1.len() implies handed_out(rs1, k) == handed_out(rs, k) by {
            lemma_handed_out_prefix(rs1, rs, k);
        }
        assert(cursor_step(cs[n - 1], cs[n as int], ws[n - 1], rs[n - 1]));
        let a = cs[0].next;
        let b = cs1.last().next;
        if rs[n - 1] is Some {
            assert(numbers_from(a, b).push(b) =~= numbers_from(a, cs.last().next));
        }
        assert forall|i: int| 0 <= i < ws.len() implies (#[trigger] rs[i] matches Some(s) ==> s < ws[i]) by {
            if i < n - 1 {
                assert(rs1[i] == rs[i]);
            }
        }
    }
}

proof fn lemma_handed_out_prefix(rs1: Seq<Option<u64>>, rs: Seq<Option<u64>>, k: nat)
    requires
        k <= rs1.len() <= rs.len(),
        forall|i: int| 0 <= i < rs1.len() ==> rs1[i] == rs[i],
    ensures
        handed_out(rs1, k) == handed_out(rs, k),
    decreases k,
{
    if k > 0 {
        lemma_handed_out_prefix(rs1, rs, (k - 1) as nat);
    }
}

} // verus!
