use crate::data_buffer::{
    index_after_string, is_latin1_nonzero, law_string_round_trip, law_u16_round_trip,
    string_at, string_bytes, u16_at, u16_bytes, DataBuffer,
};
use crate::date_time::DateTime;
use crate::json_laws::lemma_decimal_digits;
use crate::log_sink::Sink;
use crate::multi_threading::Worker;
use crate::property::logging_level;
use crate::text::{decimal, push_decimal, string_push};
use vstd::prelude::*;
use vstd::string::StringExecFns;

verus! {

/// Where log lines go. A sink is `Send`: the log system that owns it runs as a worker on a
/// thread of its own.
pub trait Logging: Send {
    fn log_debug(&self, thread_id: String, data: String);

    fn log_info(&self, thread_id: String, data: String);

    fn log_warn(&self, thread_id: String, data: String);

    fn log_error(&self, thread_id: String, data: String);
}

// ---------------------------------------------------------------------------
// Log events: a level, a thread id and a text, in a buffer
// ---------------------------------------------------------------------------

/// One of the four levels a log event can carry.
pub open spec fn is_log_level(l: u16) -> bool {
    l == logging_level::INFO || l == logging_level::DEBUG || l == logging_level::WARN || l
        == logging_level::ERROR
}

/// The level a log event read from position `i` of `s` carries (0 when two bytes are missing).
pub open spec fn event_level(s: Seq<u8>, i: int) -> u16 {
    if i + 2 <= s.len() {
        u16_at(s, i)
    } else {
        0
    }
}

/// Where the thread id of a log event read from position `i` of `s` starts.
pub open spec fn event_id_start(s: Seq<u8>, i: int) -> int {
    if i + 2 <= s.len() {
        i + 2
    } else {
        i
    }
}

/// The thread id of a log event read from position `i` of `s`.
pub open spec fn event_thread(s: Seq<u8>, i: int) -> Seq<char> {
    string_at(s, event_id_start(s, i))
}

/// The text of a log event read from position `i` of `s`.
pub open spec fn event_text(s: Seq<u8>, i: int) -> Seq<char> {
    string_at(s, index_after_string(s, event_id_start(s, i)))
}

/// The bytes of a log event: the level, then the thread id and the text as strings.
pub open spec fn log_event_bytes(level: u16, thread_id: Seq<char>, text: Seq<char>) -> Seq<u8> {
    u16_bytes(level) + string_bytes(thread_id) + string_bytes(text)
}

/// A buffer holding the log event `level`, `thread_id`, `text`, read index 0.
pub fn log_event(level: u16, thread_id: String, text: String) -> (r: DataBuffer)
    ensures
        r.data_vec@ == log_event_bytes(level, thread_id@, text@),
        r.index == 0,
{
    let mut buffer = DataBuffer::new();
    buffer.set_u16(level);
    buffer.set_string(thread_id);
    buffer.set_string(text);
    proof {
        assert(buffer.data_vec@ =~= log_event_bytes(level, thread_id@, text@));
    }
    buffer
}

/// The line the console writes for a log event: date and time fields joined by `:`,
/// then the level name, the thread id and the text, each after a `|`.
pub open spec fn console_line_chars(
    time: DateTime,
    level: Seq<char>,
    thread_id: Seq<char>,
    data: Seq<char>,
) -> Seq<char> {
    decimal(time.year as nat) + seq![':'] + decimal(time.month as nat) + seq![':'] + decimal(
        time.day as nat,
    ) + seq![':'] + decimal(time.hour as nat) + seq![':'] + decimal(time.minute as nat) + seq![
        ':',
    ] + decimal(time.second as nat) + seq!['|'] + level + seq!['|'] + thread_id + seq!['|']
        + data
}

/// The console's line for a log event at `time`, with the level's name `level`.
pub fn console_line(time: &DateTime, level: &str, thread_id: &str, data: &str) -> (r: String)
    ensures
        r@ == console_line_chars(*time, level@, thread_id@, data@),
{
    let mut line = String::new();
    push_decimal(&mut line, time.year);
    string_push(&mut line, ':');
    push_decimal(&mut line, time.month as u64);
    string_push(&mut line, ':');
    push_decimal(&mut line, time.day as u64);
    string_push(&mut line, ':');
    push_decimal(&mut line, time.hour as u64);
    string_push(&mut line, ':');
    push_decimal(&mut line, time.minute as u64);
    string_push(&mut line, ':');
    push_decimal(&mut line, time.second as u64);
    string_push(&mut line, '|');
    line.append(level);
    string_push(&mut line, '|');
    line.append(thread_id);
    string_push(&mut line, '|');
    line.append(data);
    proof {
        assert(line@ =~= console_line_chars(*time, level@, thread_id@, data@));
    }
    line
}

// ---------------------------------------------------------------------------
// The log system
// ---------------------------------------------------------------------------

/// A line handed to a sink: the level that names the sink method it went to (`DEBUG` for
/// `log_debug`, `INFO` for `log_info`, `WARN` for `log_warn`, `ERROR` for `log_error`),
/// then the thread id and the text handed to that method.
pub type SentLine = (u16, Seq<char>, Seq<char>);

/// The lines that a log event read from position `i` of `s` makes a log system at level
/// `level` pass on: the event itself when its level is one of the four and not above
/// `level`, else none.
pub open spec fn routed_lines(level: u16, s: Seq<u8>, i: int) -> Seq<SentLine> {
    if is_log_level(event_level(s, i)) && event_level(s, i) <= level {
        seq![(event_level(s, i), event_thread(s, i), event_text(s, i))]
    } else {
        Seq::empty()
    }
}

/// A logging module: passes log events at or below its level on to a `Logging`.
pub struct LogSystem {
    /// The sink, with the record of the lines handed to it (see `Sink`).
    pub sink: Sink,
    pub level: u16,
}

impl LogSystem {
    /// A log system writing to `logging`, at level `DEBUG`, that has passed nothing on.
    pub fn new(logging: Box<dyn Logging>) -> (r: Self)
        ensures
            r.level == logging_level::DEBUG,
            r.sink.sent() == Seq::<SentLine>::empty(),
    {
        LogSystem { sink: Sink::new(logging), level: logging_level::DEBUG }
    }

    /// Passes a debug line on: hands `thread_id` and `text` to the sink's `log_debug`.
    pub fn log_debug(&mut self, thread_id: String, text: String)
        ensures
            final(self).sink.logging() == old(self).sink.logging(),
            final(self).level == old(self).level,
            final(self).sink.sent() == old(self).sink.sent().push(
                (logging_level::DEBUG, thread_id@, text@),
            ),
    {
        self.sink.debug(thread_id, text);
    }

    /// Passes an info line on: hands `thread_id` and `text` to the sink's `log_info`.
    pub fn log_info(&mut self, thread_id: String, text: String)
        ensures
            final(self).sink.logging() == old(self).sink.logging(),
            final(self).level == old(self).level,
            final(self).sink.sent() == old(self).sink.sent().push(
                (logging_level::INFO, thread_id@, text@),
            ),
    {
        self.sink.info(thread_id, text);
    }

    /// Passes a warning line on: hands `thread_id` and `text` to the sink's `log_warn`.
    pub fn log_warn(&mut self, thread_id: String, text: String)
        ensures
            final(self).sink.logging() == old(self).sink.logging(),
            final(self).level == old(self).level,
            final(self).sink.sent() == old(self).sink.sent().push(
                (logging_level::WARN, thread_id@, text@),
            ),
    {
        self.sink.warn(thread_id, text);
    }

    /// Passes an error line on: hands `thread_id` and `text` to the sink's `log_error`.
    pub fn log_error(&mut self, thread_id: String, text: String)
        ensures
            final(self).sink.logging() == old(self).sink.logging(),
            final(self).level == old(self).level,
            final(self).sink.sent() == old(self).sink.sent().push(
                (logging_level::ERROR, thread_id@, text@),
            ),
    {
        self.sink.error(thread_id, text);
    }

    /// Reads a log event from the buffer's read index on (level, thread id, text) and
    /// returns it when its level is one of the four and not above this system's level.
    pub fn route_event(&self, buffer: DataBuffer) -> (r: Option<(u16, String, String)>)
        ensures
            ({
                let s = buffer.data_vec@;
                let i = buffer.index as int;
                &&& r is Some <==> (is_log_level(event_level(s, i)) && event_level(s, i)
                    <= self.level)
                &&& r matches Some(e) ==> e.0 == event_level(s, i) && e.1@ == event_thread(s, i)
                    && e.2@ == event_text(s, i)
            }),
    {
        let mut buffer = buffer;
        let event = buffer.get_u16();
        let id = buffer.get_string();
        let text = buffer.get_string();
        if self.level >= event && (event == logging_level::INFO || event == logging_level::DEBUG
            || event == logging_level::WARN || event == logging_level::ERROR) {
            Some((event, id, text))
        } else {
            None
        }
    }
}

impl Worker for LogSystem {
    fn update(&mut self) -> (r: bool)
        ensures
            r,
            *final(self) == *old(self),
    {
        true
    }

    /// Passes the log event in `buffer` on to the sink method of its level, when
    /// `route_event` lets it through.
    fn recv_event(&mut self, buffer: DataBuffer)
        ensures
            final(self).sink.logging() == old(self).sink.logging(),
            final(self).level == old(self).level,
            final(self).sink.sent() == old(self).sink.sent() + routed_lines(
                old(self).level,
                buffer.data_vec@,
                buffer.index as int,
            ),
    {
        let ghost before = self.sink.sent();
        let ghost lines = routed_lines(self.level, buffer.data_vec@, buffer.index as int);
        match self.route_event(buffer) {
            Some((event, id, text)) => {
                proof {
                    assert(lines =~= seq![(event, id@, text@)]);
                }
                if event == logging_level::INFO {
                    self.log_info(id, text);
                } else if event == logging_level::DEBUG {
                    self.log_debug(id, text);
                } else if event == logging_level::WARN {
                    self.log_warn(id, text);
                } else {
                    self.log_error(id, text);
                }
                proof {
                    assert(self.sink.sent() =~= before + lines);
                }
            },
            None => {
                proof {
                    assert(before + lines =~= before);
                }
            },
        }
    }

    fn initialize(&mut self) {
    }

    fn shutdown(&mut self) {
    }
}

/// A log event built by `log_event` is read back by `route_event` whole: its level, thread
/// id and text, when the strings' characters have non-zero code points below 0x100.
pub proof fn law_log_event_round_trip(level: u16, thread_id: Seq<char>, text: Seq<char>)
    requires
        forall|k: int| 0 <= k < thread_id.len() ==> is_latin1_nonzero(#[trigger] thread_id[k]),
        forall|k: int| 0 <= k < text.len() ==> is_latin1_nonzero(#[trigger] text[k]),
    ensures
        event_level(log_event_bytes(level, thread_id, text), 0) == level,
        event_thread(log_event_bytes(level, thread_id, text), 0) == thread_id,
        event_text(log_event_bytes(level, thread_id, text), 0) == text,
{
    let e = Seq::<u8>::empty();
    let a = string_bytes(thread_id);
    let b = string_bytes(text);
    let bytes = log_event_bytes(level, thread_id, text);
    law_u16_round_trip(e, level, a + b);
    assert(e + u16_bytes(level) + (a + b) =~= bytes);
    law_string_round_trip(u16_bytes(level), thread_id, b);
    assert(u16_bytes(level) + a + b =~= bytes);
    law_string_round_trip(u16_bytes(level) + a, text, Seq::<u8>::empty());
    assert(u16_bytes(level) + a + b + Seq::<u8>::empty() =~= bytes);
}

/// A log system at level `system_level` passes a log event built by `log_event` on as
/// exactly one line, to the sink method of the event's level with the event's thread id and
/// text, when that level is one of the four and not above `system_level`; else it passes
/// nothing on (the strings' characters having non-zero code points below 0x100).
pub proof fn law_log_event_routed(
    system_level: u16,
    level: u16,
    thread_id: Seq<char>,
    text: Seq<char>,
)
    requires
        forall|k: int| 0 <= k < thread_id.len() ==> is_latin1_nonzero(#[trigger] thread_id[k]),
        forall|k: int| 0 <= k < text.len() ==> is_latin1_nonzero(#[trigger] text[k]),
    ensures
        routed_lines(system_level, log_event_bytes(level, thread_id, text), 0) == (if is_log_level(
            level,
        ) && level <= system_level {
            seq![(level, thread_id, text)]
        } else {
            Seq::<SentLine>::empty()
        }),
{
    law_log_event_round_trip(level, thread_id, text);
}

/// Where `a` and `a2` hold no `c`, `a`, `c`, `b` and `a2`, `c`, `b2` are the same text only
/// when `a` is `a2` and `b` is `b2`.
proof fn lemma_split_at_first(a: Seq<char>, b: Seq<char>, a2: Seq<char>, b2: Seq<char>, c: char)
    requires
        a + seq![c] + b == a2 + seq![c] + b2,
        forall|k: int| 0 <= k < a.len() ==> #[trigger] a[k] != c,
        forall|k: int| 0 <= k < a2.len() ==> #[trigger] a2[k] != c,
    ensures
        a == a2,
        b == b2,
{
    let x = a + seq![c] + b;
    if a.len() < a2.len() {
        assert(x[a.len() as int] == c);
        assert((a2 + seq![c] + b2)[a.len() as int] == a2[a.len() as int]);
    } else if a2.len() < a.len() {
        assert((a2 + seq![c] + b2)[a2.len() as int] == c);
        assert(x[a2.len() as int] == a[a2.len() as int]);
    }
    assert(a.len() == a2.len());
    assert(a =~= x.subrange(0, a.len() as int));
    assert(a2 =~= (a2 + seq![c] + b2).subrange(0, a.len() as int));
    assert(b =~= x.subrange(a.len() as int + 1, x.len() as int));
    assert(b2 =~= (a2 + seq![c] + b2).subrange(a.len() as int + 1, x.len() as int));
}

/// The decimal digits of a number hold no `:` and tell the number apart.
proof fn lemma_decimal_field(n: nat, m: nat)
    ensures
        forall|k: int| 0 <= k < decimal(n).len() ==> #[trigger] decimal(n)[k] != ':',
        decimal(n) == decimal(m) ==> n == m,
{
    lemma_decimal_digits(n);
    lemma_decimal_digits(m);
    assert forall|k: int| 0 <= k < decimal(n).len() implies #[trigger] decimal(n)[k] != ':' by {
        assert(48 <= (decimal(n)[k] as u32) <= 57);
    }
}

/// A number in decimal and a `:` in front of a text are read off the front of it.
proof fn lemma_peel_field(n: nat, b: Seq<char>, m: nat, b2: Seq<char>)
    requires
        decimal(n) + seq![':'] + b == decimal(m) + seq![':'] + b2,
    ensures
        n == m,
        b == b2,
{
    lemma_decimal_field(n, m);
    lemma_decimal_field(m, n);
    lemma_split_at_first(decimal(n), b, decimal(m), b2, ':');
}

/// The text after the year and its `:` in the console line.
pub open spec fn after_year(t: DateTime, tail: Seq<char>) -> Seq<char> {
    decimal(t.month as nat) + seq![':'] + (decimal(t.day as nat) + seq![':'] + (decimal(
        t.hour as nat,
    ) + seq![':'] + (decimal(t.minute as nat) + seq![':'] + (decimal(t.second as nat) + tail))))
}

/// The text after the second in the console line.
pub open spec fn line_tail(level: Seq<char>, thread_id: Seq<char>, data: Seq<char>) -> Seq<char> {
    seq!['|'] + level + seq!['|'] + thread_id + seq!['|'] + data
}

/// The console line is the year, a `:`, and the rest.
proof fn lemma_line_shape(t: DateTime, level: Seq<char>, thread_id: Seq<char>, data: Seq<char>)
    ensures
        console_line_chars(t, level, thread_id, data) == decimal(t.year as nat) + seq![':']
            + after_year(t, line_tail(level, thread_id, data)),
{
    let tail = line_tail(level, thread_id, data);
    assert(console_line_chars(t, level, thread_id, data) =~= decimal(t.year as nat) + seq![':']
        + after_year(t, tail));
}

/// Equal console lines show equal time fields.
proof fn lemma_console_line_injective(
    t1: DateTime,
    t2: DateTime,
    level: Seq<char>,
    thread_id: Seq<char>,
    data: Seq<char>,
)
    requires
        console_line_chars(t1, level, thread_id, data) == console_line_chars(
            t2,
            level,
            thread_id,
            data,
        ),
    ensures
        t1.year == t2.year && t1.month == t2.month && t1.day == t2.day && t1.hour == t2.hour
            && t1.minute == t2.minute && t1.second == t2.second,
{
    let tail = line_tail(level, thread_id, data);
    lemma_line_shape(t1, level, thread_id, data);
    lemma_line_shape(t2, level, thread_id, data);
    lemma_peel_field(t1.year as nat, after_year(t1, tail), t2.year as nat, after_year(t2, tail));
    lemma_peel_field(
        t1.month as nat,
        decimal(t1.day as nat) + seq![':'] + (decimal(t1.hour as nat) + seq![':'] + (decimal(
            t1.minute as nat,
        ) + seq![':'] + (decimal(t1.second as nat) + tail))),
        t2.month as nat,
        decimal(t2.day as nat) + seq![':'] + (decimal(t2.hour as nat) + seq![':'] + (decimal(
            t2.minute as nat,
        ) + seq![':'] + (decimal(t2.second as nat) + tail))),
    );
    lemma_peel_field(
        t1.day as nat,
        decimal(t1.hour as nat) + seq![':'] + (decimal(t1.minute as nat) + seq![':'] + (decimal(
            t1.second as nat,
        ) + tail)),
        t2.day as nat,
        decimal(t2.hour as nat) + seq![':'] + (decimal(t2.minute as nat) + seq![':'] + (decimal(
            t2.second as nat,
        ) + tail)),
    );
    lemma_peel_field(
        t1.hour as nat,
        decimal(t1.minute as nat) + seq![':'] + (decimal(t1.second as nat) + tail),
        t2.hour as nat,
        decimal(t2.minute as nat) + seq![':'] + (decimal(t2.second as nat) + tail),
    );
    lemma_peel_field(
        t1.minute as nat,
        decimal(t1.second as nat) + tail,
        t2.minute as nat,
        decimal(t2.second as nat) + tail,
    );
    let r1 = decimal(t1.second as nat) + tail;
    let r2 = decimal(t2.second as nat) + tail;
    assert(decimal(t1.second as nat) =~= r1.subrange(0, r1.len() - tail.len()));
    assert(decimal(t2.second as nat) =~= r2.subrange(0, r2.len() - tail.len()));
    lemma_decimal_field(t1.second as nat, t2.second as nat);
}

/// The console lines of two times, for the same level, thread id and text, are the same
/// exactly when the times have the same year, month, day of the month, hour, minute and
/// second: the line shows these six fields, each in decimal, and no other.
pub proof fn law_console_line_fields(
    t1: DateTime,
    t2: DateTime,
    level: Seq<char>,
    thread_id: Seq<char>,
    data: Seq<char>,
)
    ensures
        console_line_chars(t1, level, thread_id, data) == console_line_chars(
            t2,
            level,
            thread_id,
            data,
        ) <==> (t1.year == t2.year && t1.month == t2.month && t1.day == t2.day && t1.hour
            == t2.hour && t1.minute == t2.minute && t1.second == t2.second),
{
    if console_line_chars(t1, level, thread_id, data) == console_line_chars(
        t2,
        level,
        thread_id,
        data,
    ) {
        lemma_console_line_injective(t1, t2, level, thread_id, data);
    }
}

} // verus!
