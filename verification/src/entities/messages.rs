use vstd::prelude::*;
use vstd::string::*;

use crate::codebase::Codebase;
use crate::pools::modules::{Modules, Span};
use crate::utils::text::{decimal_digits, usize_decimal};

verus! {

#[derive(Debug, Clone, Copy, PartialEq, Eq)]
pub enum NoteLevel {
    Note,
    Hint,
}

/// A remark attached to a message, optionally pointing at a place.
#[derive(Debug)]
pub struct Note {
    level: NoteLevel,
    text: String,
    span: Option<Span>,
}

impl Note {
    pub closed spec fn spec_level(&self) -> NoteLevel {
        self.level
    }

    pub closed spec fn spec_text(&self) -> Seq<char> {
        self.text@
    }

    pub closed spec fn spec_span(&self) -> Option<Span> {
        self.span
    }
}

#[derive(Debug, Clone, Copy, PartialEq, Eq)]
pub enum MessageLevel {
    Warning,
    Error,
}

/// A diagnostic: an error or a warning with its text, the place it is about
/// and any notes and hints.
#[derive(Debug)]
pub struct Message {
    level: MessageLevel,
    text: String,
    span: Option<Span>,
    notes: Vec<Note>,
}

impl Message {
    pub closed spec fn spec_level(&self) -> MessageLevel {
        self.level
    }

    pub closed spec fn spec_text(&self) -> Seq<char> {
        self.text@
    }

    pub closed spec fn spec_span(&self) -> Option<Span> {
        self.span
    }

    pub closed spec fn spec_notes(&self) -> Seq<(NoteLevel, Seq<char>, Option<Span>)> {
        self.notes@.map_values(|n: Note| (n.level, n.text@, n.span))
    }

    /// A message as it stands when first made, with no notes.
    /// Everything the message says: its level, text, span and notes.
    pub open spec fn spec_model(&self) -> (MessageLevel, Seq<char>, Option<Span>, Seq<(NoteLevel, Seq<char>, Option<Span>)>) {
        (self.spec_level(), self.spec_text(), self.spec_span(), self.spec_notes())
    }

    pub open spec fn is_plain(&self, level: MessageLevel, text: Seq<char>, span: Option<Span>) -> bool {
        &&& self.spec_level() == level
        &&& self.spec_text() == text
        &&& self.spec_span() == span
        &&& self.spec_notes() == Seq::<(NoteLevel, Seq<char>, Option<Span>)>::empty()
    }

    /// The error "expected {what}, got {got}".
    pub fn expected(what: &str, got: &str, span: Span) -> (res: Self)
        ensures
            res.is_plain(MessageLevel::Error, expected_text(what@, got@), Some(span)),
    {
        let mut text = String::from_str("expected ");
        text.append(what);
        text.append(", got ");
        text.append(got);
        proof {
            reveal_strlit("expected ");
            reveal_strlit(", got ");
        }
        Self::new_error(text, span)
    }

    /// The error "expected {what}".
    pub fn expected_what(what: &str, span: Span) -> (res: Self)
        ensures
            res.is_plain(MessageLevel::Error, "expected "@ + what@, Some(span)),
    {
        let mut text = String::from_str("expected ");
        text.append(what);
        Self::new_error(text, span)
    }

    pub fn new(level: MessageLevel, msg: String, span: Option<Span>) -> (res: Self)
        ensures
            res.is_plain(level, msg@, span),
    {
        let res = Self { level, text: msg, span, notes: Vec::new() };
        assert(res.notes@.map_values(|n: Note| (n.level, n.text@, n.span)) =~= Seq::<
            (NoteLevel, Seq<char>, Option<Span>),
        >::empty());
        res
    }

    pub fn new_error(msg: String, span: Span) -> (res: Self)
        ensures
            res.is_plain(MessageLevel::Error, msg@, Some(span)),
    {
        Self::new(MessageLevel::Error, msg, Some(span))
    }

    pub fn new_warning(msg: String, span: Span) -> (res: Self)
        ensures
            res.is_plain(MessageLevel::Warning, msg@, Some(span)),
    {
        Self::new(MessageLevel::Warning, msg, Some(span))
    }

    /// The message with a note appended.
    pub fn with_note(self, msg: String, span: Option<Span>) -> (res: Self)
        ensures
            res.spec_level() == self.spec_level(),
            res.spec_text() == self.spec_text(),
            res.spec_span() == self.spec_span(),
            res.spec_notes() == self.spec_notes().push((NoteLevel::Note, msg@, span)),
    {
        let mut s = self;
        let ghost before = s.notes@;
        s.notes.push(Note { level: NoteLevel::Note, text: msg, span });
        assert(s.notes@.map_values(|n: Note| (n.level, n.text@, n.span)) =~= before.map_values(
            |n: Note| (n.level, n.text@, n.span),
        ).push((NoteLevel::Note, msg@, span)));
        s
    }

    /// The message with a hint appended.
    pub fn with_hint(self, msg: String, span: Option<Span>) -> (res: Self)
        ensures
            res.spec_level() == self.spec_level(),
            res.spec_text() == self.spec_text(),
            res.spec_span() == self.spec_span(),
            res.spec_notes() == self.spec_notes().push((NoteLevel::Hint, msg@, span)),
    {
        let mut s = self;
        let ghost before = s.notes@;
        s.notes.push(Note { level: NoteLevel::Hint, text: msg, span });
        assert(s.notes@.map_values(|n: Note| (n.level, n.text@, n.span)) =~= before.map_values(
            |n: Note| (n.level, n.text@, n.span),
        ).push((NoteLevel::Hint, msg@, span)));
        s
    }

    pub fn level(&self) -> (res: MessageLevel)
        ensures
            res == self.spec_level(),
    {
        self.level
    }

    pub fn text(&self) -> (res: &str)
        ensures
            res@ == self.spec_text(),
    {
        self.text.as_str()
    }

    pub fn span(&self) -> (res: Option<Span>)
        ensures
            res == self.spec_span(),
    {
        self.span
    }
}

/// The text of the error made by `Message::expected`.
pub open spec fn expected_text(what: Seq<char>, got: Seq<char>) -> Seq<char> {
    "expected "@ + what + ", got "@ + got
}

/// How many of `msgs` are errors.
pub open spec fn error_count(msgs: Seq<MessageLevel>) -> nat
    decreases msgs.len(),
{
    if msgs.len() == 0 {
        0
    } else {
        error_count(msgs.drop_last()) + if msgs.last() == MessageLevel::Error {
            1nat
        } else {
            0nat
        }
    }
}

/// How many of `msgs` are warnings.
pub open spec fn warning_count(msgs: Seq<MessageLevel>) -> nat
    decreases msgs.len(),
{
    if msgs.len() == 0 {
        0
    } else {
        warning_count(msgs.drop_last()) + if msgs.last() == MessageLevel::Warning {
            1nat
        } else {
            0nat
        }
    }
}

/// Every message is an error or a warning: the two counts add up to the
/// number of messages.
pub proof fn lemma_counts_sum(msgs: Seq<MessageLevel>)
    ensures
        error_count(msgs) + warning_count(msgs) == msgs.len(),
    decreases msgs.len(),
{
    if msgs.len() > 0 {
        lemma_counts_sum(msgs.drop_last());
    }
}

/// From `a` to `b` the messages that `added` describes were reported, in
/// order, and nothing else changed.
pub open spec fn msgs_added(
    a: Seq<Message>,
    b: Seq<Message>,
    added: Seq<(MessageLevel, Seq<char>, Option<Span>, Seq<(NoteLevel, Seq<char>, Option<Span>)>)>,
) -> bool {
    &&& b.len() == a.len() + added.len()
    &&& b.take(a.len() as int) == a
    &&& forall|i: int| a.len() <= i < b.len() ==> (#[trigger] b[i]).spec_model() == added[i - a.len()]
}

/// Reporting in two steps reports what both steps report.
pub proof fn lemma_msgs_added_trans(
    a: Seq<Message>,
    b: Seq<Message>,
    c: Seq<Message>,
    x: Seq<(MessageLevel, Seq<char>, Option<Span>, Seq<(NoteLevel, Seq<char>, Option<Span>)>)>,
    y: Seq<(MessageLevel, Seq<char>, Option<Span>, Seq<(NoteLevel, Seq<char>, Option<Span>)>)>,
)
    requires
        msgs_added(a, b, x),
        msgs_added(b, c, y),
    ensures
        msgs_added(a, c, x + y),
{
    assert(c.take(a.len() as int) =~= a) by {
        assert forall|i: int| 0 <= i < a.len() implies #[trigger] c.take(a.len() as int)[i] == a[i] by {
            assert(c.take(b.len() as int)[i] == b[i]);
            assert(b.take(a.len() as int)[i] == a[i]);
        }
    }
    assert forall|i: int| a.len() <= i < c.len() implies (#[trigger] c[i]).spec_model() == (x + y)[i - a.len()] by {
        if i < b.len() {
            assert(c.take(b.len() as int)[i] == b[i]);
        }
    }
}

/// Reporting nothing.
pub proof fn lemma_msgs_added_none(a: Seq<Message>)
    ensures
        msgs_added(a, a, seq![]),
{
    assert(a.take(a.len() as int) =~= a);
}


/// The diagnostics gathered so far, in the order they were reported.
#[derive(Debug)]
pub struct Messages {
    messages: Vec<Message>,
}

impl Messages {
    /// The reported messages, oldest first.
    pub closed spec fn spec_messages(&self) -> Seq<Message> {
        self.messages@
    }

    /// The levels of the reported messages, oldest first.
    pub open spec fn levels(&self) -> Seq<MessageLevel> {
        self.spec_messages().map_values(|m: Message| m.spec_level())
    }

    pub fn new() -> (res: Self)
        ensures
            res.spec_messages() == Seq::<Message>::empty(),
    {
        Self { messages: Vec::new() }
    }

    /// Reports a message.
    pub fn add(&mut self, msg: Message)
        ensures
            final(self).spec_messages() == old(self).spec_messages().push(msg),
    {
        self.messages.push(msg);
    }

    /// The number of errors and the number of warnings reported.
    pub fn counts(&self) -> (res: (usize, usize))
        ensures
            res.0 == error_count(self.levels()),
            res.1 == warning_count(self.levels()),
            res.0 + res.1 == self.spec_messages().len(),
    {
        let mut errors: usize = 0;
        let mut warnings: usize = 0;
        let mut i: usize = 0;
        while i < self.messages.len()
            invariant
                i <= self.messages@.len(),
                errors == error_count(self.levels().take(i as int)),
                warnings == warning_count(self.levels().take(i as int)),
            decreases self.messages@.len() - i,
        {
            proof {
                let t = self.levels().take(i as int + 1);
                assert(t.drop_last() =~= self.levels().take(i as int));
                lemma_counts_sum(self.levels().take(i as int));
            }
            match self.messages[i].level {
                MessageLevel::Error => errors = errors + 1,
                MessageLevel::Warning => warnings = warnings + 1,
            }
            i = i + 1;
        }
        assert(self.levels().take(i as int) =~= self.levels());
        proof {
            lemma_counts_sum(self.levels());
        }
        (errors, warnings)
    }

    /// The number of messages reported.
    pub fn count_total(&self) -> (res: usize)
        ensures
            res == self.spec_messages().len(),
    {
        self.messages.len()
    }

    /// The message at position `i`, oldest first.
    pub fn get(&self, i: usize) -> (res: &Message)
        requires
            i < self.spec_messages().len(),
        ensures
            *res == self.spec_messages()[i as int],
    {
        &self.messages[i]
    }
}


/// How a message is printed: `[{module}:{start}..{end}] {text}` when it
/// points at a place (the module by its full name), else just its text.
pub open spec fn released_text(m: Message, modules: Modules) -> Seq<char> {
    match m.spec_span() {
        Some(sp) => "["@ + modules.spec_full_name(sp.spec_id()) + ":"@ + decimal_digits(
            sp.spec_start() as nat,
        ) + ".."@ + decimal_digits(sp.spec_end() as nat) + "] "@ + m.spec_text(),
        None => m.spec_text(),
    }
}

/// Every message that points at a place points into a module of `modules`.
pub open spec fn spans_known(msgs: Seq<Message>, modules: Modules) -> bool {
    forall|i: int|
        0 <= i < msgs.len() ==> ((#[trigger] msgs[i]).spec_span() matches Some(sp)
            ==> modules.spec_contains(sp.spec_id()))
}

impl Message {
    /// The message as it is printed (see `released_text`).
    pub fn format(&self, codebase: &Codebase) -> (res: String)
        requires
            codebase.modules.wf(),
            self.spec_span() matches Some(sp) ==> codebase.modules.spec_contains(sp.spec_id()),
        ensures
            res@ == released_text(*self, codebase.modules),
    {
        let mut formatted = String::new();
        match self.span {
            Some(span) => {
                formatted.append("[");
                let name = codebase.modules.get_full_mod_name(span.id());
                formatted.append(name.as_str());
                formatted.append(":");
                let start = usize_decimal(span.start());
                formatted.append(start.as_str());
                formatted.append("..");
                let end = usize_decimal(span.end());
                formatted.append(end.as_str());
                formatted.append("] ");
                proof {
                    reveal_strlit("[");
                    reveal_strlit(":");
                    reveal_strlit("..");
                    reveal_strlit("] ");
                }
            },
            None => {},
        }
        formatted.append(self.text.as_str());
        proof {
            assert(formatted@ =~= released_text(*self, codebase.modules));
        }
        formatted
    }
}

impl Messages {
    /// Whether every message that points at a place points into a module of
    /// `codebase` (what `release` needs).
    pub fn spans_known_in(&self, codebase: &Codebase) -> (res: bool)
        ensures
            res == spans_known(self.spec_messages(), codebase.modules),
    {
        let mut i: usize = 0;
        while i < self.messages.len()
            invariant
                i <= self.messages@.len(),
                forall|j: int|
                    0 <= j < i ==> ((#[trigger] self.messages@[j]).spec_span() matches Some(sp)
                        ==> codebase.modules.spec_contains(sp.spec_id())),
            decreases self.messages@.len() - i,
        {
            match self.messages[i].span() {
                Some(sp) => {
                    if !codebase.modules.contains(sp.id()) {
                        return false;
                    }
                },
                None => {},
            }
            i = i + 1;
        }
        true
    }

    /// Hands each message, oldest first, to `releaser` as it is printed (see
    /// `released_text`).
    pub fn release<F: Fn(&str)>(&self, codebase: &Codebase, releaser: F)
        requires
            codebase.modules.wf(),
            spans_known(self.spec_messages(), codebase.modules),
            forall|s: &str| releaser.requires((s,)),
    {
        let mut i: usize = 0;
        while i < self.messages.len()
            invariant
                codebase.modules.wf(),
                spans_known(self.spec_messages(), codebase.modules),
                forall|s: &str| releaser.requires((s,)),
            decreases self.messages@.len() - i,
        {
            let formatted = self.messages[i].format(codebase);
            releaser(formatted.as_str());
            i = i + 1;
        }
    }
}

} // verus!
