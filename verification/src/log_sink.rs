use crate::log_system::{Logging, SentLine};
use crate::property::logging_level;
use vstd::prelude::*;

verus! {

/// A `Logging` together with the record of every line handed to it. Both fields are
/// private: outside this module the record changes only through the four methods below,
/// each of which hands one line to the sink method of its level and records that line.
pub struct Sink {
    logging: Box<dyn Logging>,
    sent: Ghost<Seq<SentLine>>,
}

impl Sink {
    /// Every line handed to the sink so far, in order: the level naming the sink method
    /// that got it (`DEBUG` for `log_debug`, `INFO` for `log_info`, `WARN` for `log_warn`,
    /// `ERROR` for `log_error`), then the thread id and the text.
    pub closed spec fn sent(&self) -> Seq<SentLine> {
        self.sent@
    }

    /// The sink itself.
    pub closed spec fn logging(&self) -> Box<dyn Logging> {
        self.logging
    }

    /// The sink `logging`, with nothing handed to it yet.
    pub fn new(logging: Box<dyn Logging>) -> (r: Self)
        ensures
            r.sent() == Seq::<SentLine>::empty(),
    {
        Sink { logging, sent: Ghost(Seq::empty()) }
    }

    /// Hands `thread_id` and `text` to the sink's `log_debug`.
    pub fn debug(&mut self, thread_id: String, text: String)
        ensures
            final(self).logging() == old(self).logging(),
            final(self).sent() == old(self).sent().push(
                (logging_level::DEBUG, thread_id@, text@),
            ),
    {
        let ghost line = (logging_level::DEBUG, thread_id@, text@);
        self.logging.log_debug(thread_id, text);
        proof {
            self.sent@ = self.sent@.push(line);
        }
    }

    /// Hands `thread_id` and `text` to the sink's `log_info`.
    pub fn info(&mut self, thread_id: String, text: String)
        ensures
            final(self).logging() == old(self).logging(),
            final(self).sent() == old(self).sent().push((logging_level::INFO, thread_id@, text@)),
    {
        let ghost line = (logging_level::INFO, thread_id@, text@);
        self.logging.log_info(thread_id, text);
        proof {
            self.sent@ = self.sent@.push(line);
        }
    }

    /// Hands `thread_id` and `text` to the sink's `log_warn`.
    pub fn warn(&mut self, thread_id: String, text: String)
        ensures
            final(self).logging() == old(self).logging(),
            final(self).sent() == old(self).sent().push((logging_level::WARN, thread_id@, text@)),
    {
        let ghost line = (logging_level::WARN, thread_id@, text@);
        self.logging.log_warn(thread_id, text);
        proof {
            self.sent@ = self.sent@.push(line);
        }
    }

    /// Hands `thread_id` and `text` to the sink's `log_error`.
    pub fn error(&mut self, thread_id: String, text: String)
        ensures
            final(self).logging() == old(self).logging(),
            final(self).sent() == old(self).sent().push(
                (logging_level::ERROR, thread_id@, text@),
            ),
    {
        let ghost line = (logging_level::ERROR, thread_id@, text@);
        self.logging.log_error(thread_id, text);
        proof {
            self.sent@ = self.sent@.push(line);
        }
    }
}

} // verus!
