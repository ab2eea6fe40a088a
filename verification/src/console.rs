//! What the chat front ends compute from the spine: the text that a kernel
//! carries and the replies the agent writes back.
use vstd::prelude::*;
use vstd::utf8::{
    decode_first_scalar, decode_utf8, encode_utf8, encode_utf8_decode_utf8, encode_utf8_valid_utf8,
    is_ascii_chars, is_ascii_chars_encode_utf8, partial_valid_partial_invalid_utf8, pop_first_scalar, valid_first_scalar,
    valid_utf8, valid_utf8_concat,
};
use crate::corn_kernel::{
    all_layer_bytes, bit_set, pack_message, packed_layers, packed_row, CornKernel, Z8_LAYERS,
};
use crate::cortex::{
    calls_for_answer, has_forbidden_control, lemma_accepted_writes_are_bounded, parse_spec, AgentCommand,
    CommandView, MAX_WRITE_BYTES,
};
use crate::text::{
    chars_of, decimal, decimal_len, has_prefix, has_prefix_at, is_control, is_white_space, lemma_trim_end_shape,
    pop_char, push_char, push_decimal, trim, trim_bounds, trim_end, trim_start,
};

verus! {

/// Calls `std::str::from_utf8`. Trusted: it succeeds exactly on valid UTF-8,
/// and the text it gives is then the one those bytes encode.
#[verifier::external_body]
fn utf8_text(bytes: &[u8]) -> (r: Option<&str>)
    ensures
        r is Some <==> valid_utf8(bytes@),
        r matches Some(s) ==> encode_utf8(s@) == bytes@,
{
    std::str::from_utf8(bytes).ok()
}

/// `s` without its leading `c` characters.
pub open spec fn strip_start(s: Seq<char>, c: char) -> Seq<char>
    decreases s.len(),
{
    if s.len() > 0 && s[0] == c {
        strip_start(s.drop_first(), c)
    } else {
        s
    }
}

/// `s` without its trailing `c` characters.
pub open spec fn strip_end(s: Seq<char>, c: char) -> Seq<char>
    decreases s.len(),
{
    if s.len() > 0 && s.last() == c {
        strip_end(s.drop_last(), c)
    } else {
        s
    }
}

/// `s` without leading and trailing `c` characters (what
/// `str::trim_matches(c)` returns).
pub open spec fn strip(s: Seq<char>, c: char) -> Seq<char> {
    strip_end(strip_start(s, c), c)
}

/// The bounds `(a, b)` such that `v[a..b]` is `v[lo..hi]` stripped of `c`.
fn strip_bounds(v: &Vec<char>, lo: usize, hi: usize, c: char) -> (r: (usize, usize))
    requires
        lo <= hi <= v@.len(),
    ensures
        lo <= r.0 <= r.1 <= hi,
        v@.subrange(r.0 as int, r.1 as int) == strip(v@.subrange(lo as int, hi as int), c),
{
    let mut a: usize = lo;
    while a < hi && v[a] == c
        invariant
            lo <= a <= hi,
            hi <= v@.len(),
            strip_start(v@.subrange(lo as int, hi as int), c) == strip_start(
                v@.subrange(a as int, hi as int),
                c,
            ),
        decreases hi - a,
    {
        assert(v@.subrange(a as int, hi as int).drop_first() =~= v@.subrange(a + 1, hi as int));
        a = a + 1;
    }
    let mut b: usize = hi;
    while b > a && v[b - 1] == c
        invariant
            a <= b <= hi,
            hi <= v@.len(),
            strip_end(v@.subrange(a as int, hi as int), c) == strip_end(
                v@.subrange(a as int, b as int),
                c,
            ),
        decreases b - a,
    {
        assert(v@.subrange(a as int, b as int).drop_last() =~= v@.subrange(a as int, b - 1));
        b = b - 1;
    }
    (a, b)
}

/// The text that the bytes `b` carry: read as UTF-8, without the NUL padding
/// at either end and then without surrounding white space; empty when the
/// bytes are not UTF-8.
pub open spec fn message_of(b: Seq<u8>) -> Seq<char> {
    if valid_utf8(b) {
        trim(strip(decode_utf8(b), '\0'))
    } else {
        Seq::empty()
    }
}

/// The text that a kernel carries in its 256 layer bytes.
pub fn message_text(kernel: &CornKernel) -> (r: String)
    ensures
        r@ == message_of(all_layer_bytes(kernel.layers@)),
{
    let data = kernel.deep_read();
    match utf8_message(&data) {
        None => String::new(),
        Some(s) => s,
    }
}

/// The text that the bytes `b` carry, read as UTF-8, without the NUL padding
/// at either end and then without surrounding white space; `None` when the
/// bytes are not UTF-8.
pub fn utf8_message(b: &[u8]) -> (r: Option<String>)
    ensures
        r is None <==> !valid_utf8(b@),
        r matches Some(s) ==> s@ == trim(strip(decode_utf8(b@), '\0')),
{
    match utf8_text(b) {
        None => None,
        Some(s) => {
            proof {
                encode_utf8_decode_utf8(s@);
            }
            let v = chars_of(s);
            let (a, e) = strip_bounds(&v, 0, v.len(), '\0');
            assert(v@.subrange(0, v@.len() as int) =~= s@);
            let (c, d) = trim_bounds(&v, a, e);
            Some(String::from_str(s.substring_char(c, d)))
        },
    }
}

// ─── the chat screen ────────────────────────────────────────────────────────

/// How a chat line is shown.
#[derive(Debug, Clone, Copy, PartialEq, Eq, Structural)]
pub enum LineKind {
    /// A line the user typed.
    Own,
    /// A reply of the agent.
    Agent,
    /// Anything else: system notices and spine messages.
    Other,
}

/// The kind of a chat line: by its `[YOU]` or `AGENT:` mark.
pub open spec fn line_kind_of(m: Seq<char>) -> LineKind {
    if has_prefix(m, "[YOU]"@) {
        LineKind::Own
    } else if has_prefix(m, "AGENT:"@) {
        LineKind::Agent
    } else {
        LineKind::Other
    }
}

/// The kind of a chat line: by its `[YOU]` or `AGENT:` mark.
pub fn line_kind(m: &str) -> (r: LineKind)
    ensures
        r == line_kind_of(m@),
{
    let v = chars_of(m);
    assert(v@.subrange(0, v@.len() as int) =~= m@);
    let own = chars_of("[YOU]");
    if has_prefix_at(&v, 0, v.len(), &own) {
        return LineKind::Own;
    }
    let agent = chars_of("AGENT:");
    if has_prefix_at(&v, 0, v.len(), &agent) {
        LineKind::Agent
    } else {
        LineKind::Other
    }
}

/// `digits` padded with leading zeros to `width` characters.
pub open spec fn zero_padded(digits: Seq<char>, width: nat) -> Seq<char> {
    if digits.len() < width {
        Seq::new((width - digits.len()) as nat, |i: int| '0') + digits
    } else {
        digits
    }
}

/// Whether the matrix cell in row `i`, column `j` is lit at `tick`.
pub open spec fn cell_lit(tick: u64, i: int, j: int) -> bool {
    tick % ((((i * 15 + j) % 32) + 1) as u64) == 0
}

/// Row `i` of the matrix at `tick`: fifteen cells and a line break.
pub open spec fn matrix_row(tick: u64, i: int) -> Seq<char> {
    Seq::new(15, |j: int| if cell_lit(tick, i, j) { '⣿' } else { '░' }).push('\n')
}

/// The first `n` rows of the matrix at `tick`.
pub open spec fn matrix_rows(tick: u64, n: nat) -> Seq<char>
    decreases n,
{
    if n == 0 {
        Seq::empty()
    } else {
        matrix_rows(tick, (n - 1) as nat) + matrix_row(tick, n - 1)
    }
}

/// The status screen at `tick`: the header, the tick as eight digits, the
/// bus state, and a ten-row matrix of the tick's divisors.
pub open spec fn status_screen(tick: u64) -> Seq<char> {
    "── HOPE-VM STATUS ──\n"@ + "TICK: "@ + zero_padded(decimal(tick as nat), 8) + "\n"@
        + "BUS: ACTIVE\n\n"@ + "── VRAM MATRIX ──\n"@ + matrix_rows(tick, 10)
}

/// The text of the status screen at `tick`.
pub fn status_screen_text(tick: u64) -> (r: String)
    ensures
        r@ == status_screen(tick),
{
    let mut r = String::from_str("── HOPE-VM STATUS ──\n");
    r.append("TICK: ");
    let ghost before = r@;
    let n = decimal_len(tick);
    if n < 8 {
        let mut k: usize = 0;
        while k < 8 - n
            invariant
                k <= 8 - n,
                n < 8,
                r@ == before + Seq::new(k as nat, |i: int| '0'),
            decreases 8 - n - k,
        {
            push_char(&mut r, '0');
            assert(before + Seq::new((k + 1) as nat, |i: int| '0') =~= (before + Seq::new(
                k as nat,
                |i: int| '0',
            )).push('0'));
            k = k + 1;
        }
    }
    push_decimal(&mut r, tick);
    r.append("\n");
    r.append("BUS: ACTIVE\n\n");
    r.append("── VRAM MATRIX ──\n");
    let ghost head = r@;
    proof {
        if n < 8 {
            assert(head =~= "── HOPE-VM STATUS ──\n"@ + "TICK: "@ + zero_padded(decimal(tick as nat), 8)
                + "\n"@ + "BUS: ACTIVE\n\n"@ + "── VRAM MATRIX ──\n"@);
        } else {
            assert(head =~= "── HOPE-VM STATUS ──\n"@ + "TICK: "@ + zero_padded(decimal(tick as nat), 8)
                + "\n"@ + "BUS: ACTIVE\n\n"@ + "── VRAM MATRIX ──\n"@);
        }
    }
    let mut i: usize = 0;
    while i < 10
        invariant
            i <= 10,
            r@ == head + matrix_rows(tick, i as nat),
        decreases 10 - i,
    {
        let ghost row_start = r@;
        let mut j: usize = 0;
        while j < 15
            invariant
                i < 10,
                j <= 15,
                r@ == row_start + Seq::new(
                    j as nat,
                    |c: int| if cell_lit(tick, i as int, c) { '⣿' } else { '░' },
                ),
            decreases 15 - j,
        {
            let idx = (i * 15 + j) % 32;
            let ghost prev = r@;
            if tick % ((idx as u64) + 1) == 0 {
                push_char(&mut r, '⣿');
            } else {
                push_char(&mut r, '░');
            }
            assert(r@ =~= row_start + Seq::new(
                (j + 1) as nat,
                |c: int| if cell_lit(tick, i as int, c) { '⣿' } else { '░' },
            ));
            j = j + 1;
        }
        push_char(&mut r, '\n');
        assert(r@ =~= head + matrix_rows(tick, (i + 1) as nat));
        i = i + 1;
    }
    r
}

/// A key that the chat input reacts to.
pub enum ChatKey {
    Enter,
    Char(char),
    Backspace,
    Esc,
    Other,
}

/// What the front end does after a key.
pub enum ChatAction {
    /// Nothing beyond the state change.
    Idle,
    /// Write this message to the spine.
    Send(String),
    /// Leave the chat.
    Quit,
}

/// The chat's input line and the lines shown so far.
pub struct ChatState {
    pub input: String,
    pub messages: Vec<String>,
}

/// The texts of a list of lines.
pub open spec fn texts(v: Seq<String>) -> Seq<Seq<char>> {
    v.map_values(|m: String| m@)
}

/// The line that starts every chat.
pub open spec fn welcome_line() -> Seq<char> {
    "[SYSTEM] Welcome to HOPE-OS TUI. Connection established."@
}

/// The effect of `key` on the chat: `old` becomes `new` and `r` is the action.
/// Enter sends a nonempty input and shows it marked `[YOU] `; the input is
/// then empty. A character is typed at the end, Backspace removes the last,
/// Esc quits; other keys do nothing.
pub open spec fn key_step(old: ChatState, new: ChatState, key: ChatKey, r: ChatAction) -> bool {
    match key {
        ChatKey::Enter => {
            &&& new.input@.len() == 0
            &&& if old.input@.len() > 0 {
                &&& r matches ChatAction::Send(m) && m@ == old.input@
                &&& texts(new.messages@) == texts(old.messages@).push("[YOU] "@ + old.input@)
            } else {
                &&& r is Idle
                &&& texts(new.messages@) == texts(old.messages@)
            }
        },
        ChatKey::Char(c) => {
            &&& r is Idle
            &&& new.input@ == old.input@.push(c)
            &&& texts(new.messages@) == texts(old.messages@)
        },
        ChatKey::Backspace => {
            &&& r is Idle
            &&& new.input@ == if old.input@.len() > 0 {
                old.input@.drop_last()
            } else {
                old.input@
            }
            &&& texts(new.messages@) == texts(old.messages@)
        },
        ChatKey::Esc => {
            &&& r is Quit
            &&& new.input@ == old.input@
            &&& texts(new.messages@) == texts(old.messages@)
        },
        ChatKey::Other => {
            &&& r is Idle
            &&& new.input@ == old.input@
            &&& texts(new.messages@) == texts(old.messages@)
        },
    }
}

impl ChatState {
    /// An empty input line and the welcome line.
    pub fn new() -> (r: Self)
        ensures
            r.input@ == Seq::<char>::empty(),
            texts(r.messages@) == seq![welcome_line()],
    {
        let mut messages: Vec<String> = Vec::new();
        messages.push(String::from_str("[SYSTEM] Welcome to HOPE-OS TUI. Connection established."));
        let r = ChatState { input: String::new(), messages };
        assert(texts(r.messages@) =~= seq![welcome_line()]);
        r
    }

    /// Applies a key to the chat.
    pub fn on_key(&mut self, key: ChatKey) -> (r: ChatAction)
        ensures
            key_step(*old(self), *final(self), key, r),
    {
        match key {
            ChatKey::Enter => {
                let mut msg = String::new();
                std::mem::swap(&mut msg, &mut self.input);
                if msg.unicode_len() > 0 {
                    let mut line = String::from_str("[YOU] ");
                    line.append(msg.as_str());
                    let ghost before = self.messages@;
                    self.messages.push(line);
                    assert(texts(self.messages@) =~= texts(before).push("[YOU] "@ + msg@));
                    ChatAction::Send(msg)
                } else {
                    ChatAction::Idle
                }
            },
            ChatKey::Char(c) => {
                push_char(&mut self.input, c);
                ChatAction::Idle
            },
            ChatKey::Backspace => {
                let _ = pop_char(&mut self.input);
                ChatAction::Idle
            },
            ChatKey::Esc => ChatAction::Quit,
            ChatKey::Other => ChatAction::Idle,
        }
    }

    /// Shows a line read from the spine, unless it is empty.
    pub fn receive(&mut self, msg: String)
        ensures
            final(self).input@ == old(self).input@,
            msg@.len() > 0 ==> texts(final(self).messages@) == texts(old(self).messages@).push(msg@),
            msg@.len() == 0 ==> texts(final(self).messages@) == texts(old(self).messages@),
    {
        if msg.unicode_len() > 0 {
            let ghost before = self.messages@;
            let ghost text = msg@;
            self.messages.push(msg);
            assert(texts(self.messages@) =~= texts(before).push(text));
        }
    }
}

/// The text the agent writes back for a model answer.
pub open spec fn agent_reply_text(answer: Seq<char>) -> Seq<char> {
    "AGENT: "@ + answer
}

/// The text the agent writes back for a model answer: the answer after the
/// `AGENT: ` mark, by which replies are told from messages.
pub fn agent_reply(answer: &str) -> (r: String)
    ensures
        r@ == agent_reply_text(answer@),
{
    let mut r = String::from_str("AGENT: ");
    r.append(answer);
    r
}

/// Whether `k` is the kernel that `pack_message` makes of `data`.
pub open spec fn packs(data: Seq<u8>, k: CornKernel) -> bool {
    &&& forall|d: int| 0 <= d < Z8_LAYERS ==> #[trigger] k.layers@[d]@ == packed_row(data, d)
    &&& forall|d: u8| d < 8 ==> (bit_set(k.active_mask, d) <==> (d as nat) < packed_layers(data.len()))
    &&& k.zoom_depth as nat == packed_layers(data.len())
    &&& k.genome_tag == 0
    &&& k.seq == 0
}

/// What the agent does with a model reply once the guard has read it.
pub enum AgentAction {
    /// Write this kernel to the spine.
    Write(CornKernel),
    /// Report the spine's counters.
    ReportStatus,
    /// Nothing to do.
    Ignore,
    /// The reply was a malformed command, refused for this reason.
    Refuse(String),
}

/// The action for the command `c`: a write becomes the kernel of the
/// agent's reply with the written message, a status query a report, a
/// malformed command a refusal with its reason, anything else nothing.
pub open spec fn action_for(c: CommandView, r: AgentAction) -> bool {
    match c {
        CommandView::WriteMessage(m) => r matches AgentAction::Write(k) && packs(
            encode_utf8(agent_reply_text(m)),
            k,
        ),
        CommandView::QueryStatus => r is ReportStatus,
        CommandView::Noop => r is Ignore,
        CommandView::Invalid(t) => r matches AgentAction::Refuse(s) && s@ == t,
    }
}

/// The action for a command that the guard gave.
pub fn agent_action(cmd: &AgentCommand) -> (r: AgentAction)
    ensures
        action_for(cmd@, r),
{
    match cmd {
        AgentCommand::WriteMessage(m) => {
            let reply = agent_reply(m.as_str());
            AgentAction::Write(pack_message(reply.as_str().as_bytes()))
        },
        AgentCommand::QueryStatus => AgentAction::ReportStatus,
        AgentCommand::Noop => AgentAction::Ignore,
        AgentCommand::Invalid(t) => AgentAction::Refuse(String::from_str(t.as_str())),
    }
}

/// One step of the agent on a model reply: the reply goes through the guard
/// (`AgentCommand::parse`), and only the command it gives is acted on, so
/// the reply itself is never written.
pub fn agent_step(reply: &str) -> (r: AgentAction)
    ensures
        action_for(parse_spec(reply@), r),
{
    let cmd = AgentCommand::parse(reply);
    agent_action(&cmd)
}

/// The model never writes raw data to the spine: whatever the reply, a
/// kernel that the agent writes for it carries `AGENT: ` and a message that
/// the guard accepted (1 to 240 bytes, trimmed, no control character but
/// line feed), whole and uncut, so that reading it back gives that reply;
/// and it never calls for an answer itself.
pub proof fn lemma_agent_writes_only_guarded(reply: Seq<char>, r: AgentAction)
    requires
        action_for(parse_spec(reply), r),
        r is Write,
    ensures
        parse_spec(reply) matches CommandView::WriteMessage(m) && {
            &&& 1 <= encode_utf8(m).len() <= MAX_WRITE_BYTES
            &&& !has_forbidden_control(m)
            &&& m == trim(m)
            &&& encode_utf8(agent_reply_text(m)).len() <= 256
            &&& r matches AgentAction::Write(k) && packs(encode_utf8(agent_reply_text(m)), k)
                && message_of(all_layer_bytes(k.layers@)) == agent_reply_text(m)
        },
        r matches AgentAction::Write(k) ==> !calls_for_answer(message_of(all_layer_bytes(k.layers@))),
{
    lemma_accepted_writes_are_bounded(reply);
    if let CommandView::WriteMessage(m) = parse_spec(reply) {
        reveal_strlit("AGENT: ");
        lemma_encode_concat("AGENT: "@, m);
        is_ascii_chars_encode_utf8("AGENT: "@);
        assert(encode_utf8("AGENT: "@).len() == 7);
        if let AgentAction::Write(k) = r {
            lemma_agent_replies_not_answered(m, k);
            lemma_agent_reply_reads_back(m, k);
        }
    }
}

/// `n` NUL characters.
spec fn nul_padding(n: nat) -> Seq<char> {
    Seq::new(n, |i: int| '\0')
}

/// Text that does not end in NUL loses exactly its NUL padding to `strip_end`.
proof fn lemma_strip_end_padding(s: Seq<char>, n: nat)
    requires
        s.len() > 0,
        s.last() != '\0',
    ensures
        strip_end(s + nul_padding(n), '\0') == s,
    decreases n,
{
    if n == 0 {
        assert(s + nul_padding(n) =~= s);
    } else {
        assert((s + nul_padding(n)).drop_last() =~= s + nul_padding((n - 1) as nat));
        lemma_strip_end_padding(s, (n - 1) as nat);
    }
}

/// What the agent writes for a message that the guard accepted reads back
/// whole: the text that the written kernel carries is `AGENT: ` and the
/// message.
pub proof fn lemma_agent_reply_reads_back(m: Seq<char>, k: CornKernel)
    requires
        1 <= encode_utf8(m).len() <= MAX_WRITE_BYTES,
        !has_forbidden_control(m),
        m == trim(m),
        packs(encode_utf8(agent_reply_text(m)), k),
    ensures
        message_of(all_layer_bytes(k.layers@)) == agent_reply_text(m),
{
    reveal_strlit("AGENT: ");
    let p = "AGENT: "@;
    let x = agent_reply_text(m);
    lemma_encode_concat(p, m);
    is_ascii_chars_encode_utf8(p);
    let data = encode_utf8(x);
    let l = data.len();
    assert(l <= 247);
    let pad = (256 - l) as nat;
    let z = nul_padding(pad);
    assert(is_ascii_chars(z));
    is_ascii_chars_encode_utf8(z);
    lemma_encode_concat(x, z);
    let y = x + z;
    let b = all_layer_bytes(k.layers@);
    assert forall|i: int| 0 <= i < 256 implies b[i] == encode_utf8(y)[i] by {
        let d = i / 32;
        let j = i % 32;
        assert(k.layers@[d]@ == packed_row(data, d));
        assert(32 * d + j == i);
        if i >= l {
            assert(z[i - l] == '\0');
        }
    }
    assert(b =~= encode_utf8(y));
    encode_utf8_valid_utf8(y);
    encode_utf8_decode_utf8(y);
    if m.len() == 0 {
        assert(encode_utf8(m) =~= Seq::<u8>::empty());
    }
    assert(y[0] == 'A');
    assert(strip_start(y, '\0') == y);
    let last = m[m.len() - 1];
    assert(!(is_control(last) && last != '\n'));
    assert(x.last() == last);
    lemma_strip_end_padding(x, pad);
    assert(strip(decode_utf8(b), '\0') == x);
    assert(trim_start(x) == x);
    lemma_trim_end_shape(trim_start(m));
    assert(trim_end(x) == x);
}

proof fn lemma_decode_concat(b1: Seq<u8>, b2: Seq<u8>)
    requires
        valid_utf8(b1),
        valid_utf8(b2),
    ensures
        valid_utf8(b1 + b2),
        decode_utf8(b1 + b2) == decode_utf8(b1) + decode_utf8(b2),
    decreases b1.len(),
{
    valid_utf8_concat(b1, b2);
    if b1.len() == 0 {
        assert(b1 + b2 =~= b2);
    } else {
        let joined = b1 + b2;
        let rest = pop_first_scalar(b1);
        assert(valid_first_scalar(b1));
        assert(decode_first_scalar(joined) == decode_first_scalar(b1));
        assert(pop_first_scalar(joined) =~= rest + b2);
        lemma_decode_concat(rest, b2);
        assert(decode_utf8(joined) =~= decode_utf8(b1) + decode_utf8(b2));
    }
}

proof fn lemma_encode_concat(a: Seq<char>, c: Seq<char>)
    ensures
        encode_utf8(a + c) == encode_utf8(a) + encode_utf8(c),
    decreases a.len(),
{
    if a.len() == 0 {
        assert(a + c =~= c);
    } else {
        lemma_encode_concat(a.drop_first(), c);
        assert((a + c).drop_first() =~= a.drop_first() + c);
        assert((a + c)[0] == a[0]);
        assert(encode_utf8(a + c) =~= encode_utf8(a) + encode_utf8(c));
    }
}

proof fn lemma_strip_end_keeps(s: Seq<char>, c: char, j: int)
    requires
        0 <= j < s.len(),
        s[j] != c,
    ensures
        j < strip_end(s, c).len() <= s.len(),
        strip_end(s, c) == s.take(strip_end(s, c).len() as int),
    decreases s.len(),
{
    if s.last() == c {
        lemma_strip_end_keeps(s.drop_last(), c, j);
        let n = strip_end(s, c).len() as int;
        assert(s.drop_last().take(n) =~= s.take(n));
    } else {
        assert(s.take(s.len() as int) =~= s);
    }
}

proof fn lemma_trim_end_keeps(s: Seq<char>, j: int)
    requires
        0 <= j < s.len(),
        !is_white_space(s[j]),
    ensures
        j < trim_end(s).len() <= s.len(),
        trim_end(s) == s.take(trim_end(s).len() as int),
    decreases s.len(),
{
    if is_white_space(s.last()) {
        lemma_trim_end_keeps(s.drop_last(), j);
        let n = trim_end(s).len() as int;
        assert(s.drop_last().take(n) =~= s.take(n));
    } else {
        assert(s.take(s.len() as int) =~= s);
    }
}

/// A reply that the agent writes back never calls for an answer itself: the
/// text that its kernel carries is empty or starts with `AGENT:`, however
/// long the answer and wherever the kernel cuts it.
pub proof fn lemma_agent_replies_not_answered(answer: Seq<char>, k: CornKernel)
    requires
        forall|d: int|
            0 <= d < Z8_LAYERS ==> #[trigger] k.layers@[d]@ == packed_row(
                encode_utf8(agent_reply_text(answer)),
                d,
            ),
    ensures
        !calls_for_answer(message_of(all_layer_bytes(k.layers@))),
{
    reveal_strlit("AGENT: ");
    reveal_strlit("AGENT:");
    let p = "AGENT: "@;
    let data = encode_utf8(agent_reply_text(answer));
    let b = all_layer_bytes(k.layers@);
    lemma_encode_concat(p, answer);
    is_ascii_chars_encode_utf8(p);
    let e = encode_utf8(p);
    assert(e.len() == 7);
    assert forall|i: int| 0 <= i < 256 implies b[i] == (if i < data.len() {
        data[i]
    } else {
        0u8
    }) by {
        let d = i / 32;
        let j = i % 32;
        assert(k.layers@[d]@ == packed_row(data, d));
        assert(32 * d + j == i);
    }
    if valid_utf8(b) {
        assert(b.subrange(0, 7) =~= e);
        encode_utf8_valid_utf8(p);
        let rest = b.subrange(7, 256);
        if !valid_utf8(rest) {
            partial_valid_partial_invalid_utf8(b, 7);
        }
        lemma_decode_concat(e, rest);
        assert(e + rest =~= b);
        encode_utf8_decode_utf8(p);
        let y = decode_utf8(b);
        assert(y == p + decode_utf8(rest));
        assert(y[0] == 'A' && y[5] == ':');
        assert(strip_start(y, '\0') == y);
        lemma_strip_end_keeps(y, '\0', 5);
        let z = strip(y, '\0');
        assert(z[0] == 'A' && z[5] == ':');
        assert(trim_start(z) == z);
        lemma_trim_end_keeps(z, 5);
        let m = trim(z);
        assert(m.take(6) =~= "AGENT:"@);
        assert(has_prefix(m, "AGENT:"@));
    }
}

} // verus!
