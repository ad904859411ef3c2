use vstd::prelude::*;
use vstd::string::*;
use crate::text::{contains, has_substring, to_chars};

verus! {

/// The two kinds of message a report holds.
#[derive(Copy, Clone, Debug, PartialEq, Eq, Structural)]
pub enum MessageKind {
    Error,
    Note,
}

/// A place in the source: a file and a line, counted from zero.
#[derive(Debug)]
pub struct Span {
    pub file: String,
    pub line: usize,
}

/// What a `Span` stands for.
pub struct Place {
    pub file: Seq<char>,
    pub line: usize,
}

impl View for Span {
    type V = Place;

    open spec fn view(&self) -> Place {
        Place { file: self.file@, line: self.line }
    }
}

impl Clone for Span {
    fn clone(&self) -> (r: Span)
        ensures
            r@ == self@,
    {
        Span { file: self.file.clone(), line: self.line }
    }
}

impl Span {
    /// A span of the given file and line.
    pub fn new(file: &str, line: usize) -> (r: Span)
        ensures
            r@ == (Place { file: file@, line }),
    {
        Span { file: String::from_str(file), line }
    }

    /// A span that points nowhere: the empty file name, line zero.
    pub fn new_dummy() -> (r: Span)
        ensures
            r@ == (Place { file: Seq::<char>::empty(), line: 0 }),
    {
        Span { file: String::new(), line: 0 }
    }
}

/// One message: its kind, its text, and where it points, if anywhere.
#[derive(Debug)]
pub struct Message {
    pub kind: MessageKind,
    pub descr: String,
    pub span: Option<Span>,
}

/// What a `Message` stands for.
pub struct Notice {
    pub kind: MessageKind,
    pub descr: Seq<char>,
    pub span: Option<Place>,
}

/// What an optional span stands for.
pub open spec fn place_of(span: Option<Span>) -> Option<Place> {
    match span {
        Some(s) => Some(s@),
        None => None,
    }
}

impl View for Message {
    type V = Notice;

    open spec fn view(&self) -> Notice {
        Notice { kind: self.kind, descr: self.descr@, span: place_of(self.span) }
    }
}

impl Clone for Message {
    fn clone(&self) -> (r: Message)
        ensures
            r@ == self@,
    {
        let span = match &self.span {
            Some(s) => Some(s.clone()),
            None => None,
        };
        Message { kind: self.kind, descr: self.descr.clone(), span }
    }
}

/// What a list of messages stands for.
pub open spec fn notices(v: Seq<Message>) -> Seq<Notice> {
    v.map_values(|m: Message| m@)
}

/// The notices of a list with one more message are the list's notices with one more notice.
pub proof fn lemma_notices_push(v: Seq<Message>, m: Message)
    ensures
        notices(v.push(m)) == notices(v).push(m@),
{
    assert(notices(v.push(m)) =~= notices(v).push(m@));
}

/// A copy of a list of messages.
pub fn copy_messages(v: &Vec<Message>) -> (r: Vec<Message>)
    ensures
        notices(r@) == notices(v@),
{
    let mut r: Vec<Message> = Vec::new();
    let mut i: usize = 0;
    while i < v.len()
        invariant
            i <= v.len(),
            notices(r@) == notices(v@.take(i as int)),
        decreases v.len() - i,
    {
        let ghost before = r@;
        r.push(v[i].clone());
        proof {
            lemma_notices_push(before, r@.last());
            lemma_notices_push(v@.take(i as int), v@[i as int]);
            assert(v@.take(i + 1) == v@.take(i as int).push(v@[i as int]));
        }
        i = i + 1;
    }
    assert(v@.take(v.len() as int) == v@);
    r
}

/// A message as a report holds it: with the headings of the scopes that were open when it was
/// emitted, outermost first.
#[derive(Debug)]
pub struct Diagnostic {
    pub message: Message,
    pub context: Vec<Message>,
}

/// What a `Diagnostic` stands for.
pub struct Entry {
    pub message: Notice,
    pub context: Seq<Notice>,
}

impl View for Diagnostic {
    type V = Entry;

    open spec fn view(&self) -> Entry {
        Entry { message: self.message@, context: notices(self.context@) }
    }
}

/// What a list of diagnostics stands for.
pub open spec fn entries(v: Seq<Diagnostic>) -> Seq<Entry> {
    v.map_values(|d: Diagnostic| d@)
}

/// The entries of a list with one more diagnostic are the list's entries with one more entry.
pub proof fn lemma_entries_push(v: Seq<Diagnostic>, d: Diagnostic)
    ensures
        entries(v.push(d)) == entries(v).push(d@),
{
    assert(entries(v.push(d)) =~= entries(v).push(d@));
}

/// An entry put under further headings: `outer` comes to stand before its own context.
pub open spec fn nested(outer: Seq<Notice>, e: Entry) -> Entry {
    Entry { message: e.message, context: outer + e.context }
}

/// Each of `es` put under the headings `outer`.
pub open spec fn nested_all(outer: Seq<Notice>, es: Seq<Entry>) -> Seq<Entry> {
    es.map_values(|e: Entry| nested(outer, e))
}

/// Whether a notice has the given kind, points at the given file and line, and holds `excerpt`
/// in its text.
pub open spec fn notice_matches(
    n: Notice,
    file: Seq<char>,
    kind: MessageKind,
    line: usize,
    excerpt: Seq<char>,
) -> bool {
    &&& n.kind == kind
    &&& n.span == Some(Place { file, line })
    &&& contains(n.descr, excerpt)
}

/// Whether an entry, in its own message or in one of its headings, matches.
pub open spec fn entry_matches(
    e: Entry,
    file: Seq<char>,
    kind: MessageKind,
    line: usize,
    excerpt: Seq<char>,
) -> bool {
    notice_matches(e.message, file, kind, line, excerpt) || exists|i: int|
        0 <= i < e.context.len() && notice_matches(#[trigger] e.context[i], file, kind, line, excerpt)
}

/// Number of messages in `es`, the headings counted with them.
pub open spec fn count_with_context(es: Seq<Entry>) -> nat
    decreases es.len(),
{
    if es.len() == 0 {
        0
    } else {
        count_with_context(es.drop_last()) + 1 + es.last().context.len()
    }
}

/// Whether an error is among the entries, whatever headings they stand under.
pub open spec fn any_error(es: Seq<Entry>) -> bool {
    exists|i: int| 0 <= i < es.len() && (#[trigger] es[i]).message.kind == MessageKind::Error
}

/// What a `Report` stands for: the entries in the order they came, and the headings of the
/// scopes that are open, outermost first.
pub struct Transcript {
    pub messages: Seq<Entry>,
    pub parents: Seq<Notice>,
}

impl Transcript {
    /// The transcript of a report that nothing was written to.
    pub open spec fn empty() -> Transcript {
        Transcript { messages: Seq::empty(), parents: Seq::empty() }
    }

    /// This transcript after one more message came in.
    pub open spec fn with_message(self, n: Notice) -> Transcript {
        Transcript {
            messages: self.messages.push(Entry { message: n, context: self.parents }),
            parents: self.parents,
        }
    }

    /// This transcript after an error came in.
    pub open spec fn with_error(self, descr: Seq<char>, span: Option<Place>) -> Transcript {
        self.with_message(Notice { kind: MessageKind::Error, descr, span })
    }

    /// This transcript after the entries `es` of another report were moved into it.
    pub open spec fn with_entries(self, es: Seq<Entry>) -> Transcript {
        Transcript { messages: self.messages + nested_all(self.parents, es), parents: self.parents }
    }

    /// Whether an error is among the entries.
    pub open spec fn has_errors(self) -> bool {
        any_error(self.messages)
    }

}

/// The entry of an error that was emitted with no scope open.
pub open spec fn plain_error(descr: Seq<char>, span: Option<Place>) -> Entry {
    Entry { message: Notice { kind: MessageKind::Error, descr, span }, context: Seq::empty() }
}

/// Entries put under no headings stay as they are.
pub proof fn lemma_nested_under_nothing(es: Seq<Entry>)
    ensures
        nested_all(Seq::empty(), es) == es,
{
    assert forall|i: int| 0 <= i < es.len() implies nested(Seq::empty(), es[i]) == es[i] by {
        assert(Seq::<Notice>::empty() + es[i].context =~= es[i].context);
    }
    assert(nested_all(Seq::empty(), es) =~= es);
}

/// Moving no entries changes nothing.
pub proof fn lemma_with_no_entries(t: Transcript)
    ensures
        t.with_entries(Seq::empty()) == t,
{
    assert(t.with_entries(Seq::empty()).messages =~= t.messages);
}

/// Moving entries in two steps is moving them at once.
pub proof fn lemma_with_entries_twice(t: Transcript, a: Seq<Entry>, b: Seq<Entry>)
    ensures
        t.with_entries(a).with_entries(b) == t.with_entries(a + b),
{
    assert(nested_all(t.parents, a + b) =~= nested_all(t.parents, a) + nested_all(t.parents, b));
    assert(t.with_entries(a).with_entries(b).messages =~= t.with_entries(a + b).messages);
}

/// Emitting an error is moving in the one entry of that error.
pub proof fn lemma_with_error(t: Transcript, descr: Seq<char>, span: Option<Place>)
    ensures
        t.with_error(descr, span) == t.with_entries(seq![plain_error(descr, span)]),
{
    let e = plain_error(descr, span);
    assert(nested(t.parents, e).context =~= t.parents);
    assert(nested_all(t.parents, seq![e]) =~= seq![nested(t.parents, e)]);
    assert(t.with_error(descr, span).messages =~= t.with_entries(seq![e]).messages);
}

/// Entries that come in while a scope is open come to stand under its heading.
pub proof fn lemma_with_entries_in_scope(t: Transcript, heading: Notice, es: Seq<Entry>)
    ensures
        (Transcript { messages: t.messages, parents: t.parents.push(heading) }).with_entries(es).messages
            == t.with_entries(nested_all(seq![heading], es)).messages,
{
    let inner = Transcript { messages: t.messages, parents: t.parents.push(heading) };
    assert forall|i: int| 0 <= i < es.len() implies nested(t.parents.push(heading), es[i]) == nested(
        t.parents,
        nested(seq![heading], es[i]),
    ) by {
        assert(t.parents.push(heading) + es[i].context =~= t.parents + (seq![heading]
            + es[i].context));
    }
    assert(nested_all(t.parents.push(heading), es) =~= nested_all(
        t.parents,
        nested_all(seq![heading], es),
    ));
}

/// An append-only sink of diagnostics with nested scopes.
#[derive(Debug)]
pub struct Report {
    pub messages: Vec<Diagnostic>,
    pub parents: Vec<Message>,
}

impl View for Report {
    type V = Transcript;

    open spec fn view(&self) -> Transcript {
        Transcript { messages: entries(self.messages@), parents: notices(self.parents@) }
    }
}

impl Report {
    /// A report that holds nothing.
    pub fn new() -> (r: Report)
        ensures
            r@ == Transcript::empty(),
    {
        let r = Report { messages: Vec::new(), parents: Vec::new() };
        assert(r@.messages =~= Seq::empty());
        assert(r@.parents =~= Seq::empty());
        r
    }

    /// Appends a message, under the headings of the scopes that are open.
    pub fn message(&mut self, msg: Message)
        ensures
            final(self)@ == old(self)@.with_message(msg@),
    {
        let context = copy_messages(&self.parents);
        let ghost before = self.messages@;
        self.messages.push(Diagnostic { message: msg, context });
        proof {
            lemma_entries_push(before, self.messages@.last());
        }
    }

    /// Appends an error that points nowhere.
    pub fn error(&mut self, descr: &str)
        ensures
            final(self)@ == old(self)@.with_error(descr@, None),
    {
        self.message(Message { kind: MessageKind::Error, descr: String::from_str(descr), span: None });
    }

    /// Appends an error at `span`.
    pub fn error_span(&mut self, descr: &str, span: &Span)
        ensures
            final(self)@ == old(self)@.with_error(descr@, Some(span@)),
    {
        self.message(
            Message {
                kind: MessageKind::Error,
                descr: String::from_str(descr),
                span: Some(span.clone()),
            },
        );
    }

    /// Appends a note at `span`.
    pub fn note_span(&mut self, descr: &str, span: &Span)
        ensures
            final(self)@ == old(self)@.with_message(
                Notice { kind: MessageKind::Note, descr: descr@, span: Some(span@) },
            ),
    {
        self.message(
            Message {
                kind: MessageKind::Note,
                descr: String::from_str(descr),
                span: Some(span.clone()),
            },
        );
    }

    /// Opens a scope: until it is closed, every message comes to stand under this heading.
    pub fn push_parent(&mut self, descr: &str, span: &Span)
        ensures
            final(self)@.messages == old(self)@.messages,
            final(self)@.parents == old(self)@.parents.push(
                Notice { kind: MessageKind::Error, descr: descr@, span: Some(span@) },
            ),
    {
        self.parents.push(
            Message {
                kind: MessageKind::Error,
                descr: String::from_str(descr),
                span: Some(span.clone()),
            },
        );
        assert(self@.parents =~= old(self)@.parents.push(
            Notice { kind: MessageKind::Error, descr: descr@, span: Some(span@) },
        ));
    }

    /// Closes the scope that was opened last; with no scope open, nothing changes.
    pub fn pop_parent(&mut self)
        ensures
            final(self)@.messages == old(self)@.messages,
            final(self)@.parents == if old(self)@.parents.len() > 0 {
                old(self)@.parents.drop_last()
            } else {
                old(self)@.parents
            },
    {
        let _ = self.parents.pop();
        assert(self@.parents =~= if old(self)@.parents.len() > 0 {
            old(self)@.parents.drop_last()
        } else {
            old(self)@.parents
        });
    }

    /// Number of entries.
    pub fn len(&self) -> (r: usize)
        ensures
            r == self@.messages.len(),
    {
        self.messages.len()
    }

    /// Number of messages, the headings above each entry counted with it; where that number
    /// does not fit, the largest number that does.
    pub fn len_with_submessages(&self) -> (r: usize)
        ensures
            r == if count_with_context(self@.messages) <= usize::MAX {
                count_with_context(self@.messages)
            } else {
                usize::MAX as nat
            },
    {
        let mut total: usize = 0;
        let mut full = false;
        let mut i: usize = 0;
        while i < self.messages.len()
            invariant
                i <= self.messages.len(),
                !full ==> total == count_with_context(self@.messages.take(i as int)),
                full ==> total == usize::MAX && count_with_context(self@.messages.take(i as int))
                    > usize::MAX,
            decreases self.messages.len() - i,
        {
            let extra = self.messages[i].context.len();
            proof {
                let now = self@.messages.take(i + 1);
                assert(now.drop_last() == self@.messages.take(i as int));
                assert(now.last().context.len() == extra);
            }
            if full || extra == usize::MAX || total > usize::MAX - extra - 1 {
                full = true;
                total = usize::MAX;
            } else {
                total = total + 1 + extra;
            }
            i = i + 1;
        }
        assert(self@.messages.take(self.messages.len() as int) == self@.messages);
        total
    }

    /// Whether an error is among the entries.
    pub fn has_errors(&self) -> (r: bool)
        ensures
            r == self@.has_errors(),
    {
        let mut i: usize = 0;
        while i < self.messages.len()
            invariant
                i <= self.messages.len(),
                forall|j: int|
                    0 <= j < i ==> (#[trigger] self@.messages[j]).message.kind != MessageKind::Error,
            decreases self.messages.len() - i,
        {
            match self.messages[i].message.kind {
                MessageKind::Error => {
                    assert(self@.messages[i as int].message.kind == MessageKind::Error);
                    return true;
                },
                MessageKind::Note => {},
            }
            i = i + 1;
        }
        false
    }

    /// Moves every entry into `other`, in order, each under the headings of the scopes that
    /// are open there. This report is left without entries; its open scopes stay.
    pub fn transfer_to(&mut self, other: &mut Report)
        ensures
            final(self)@.messages == Seq::<Entry>::empty(),
            final(self)@.parents == old(self)@.parents,
            final(other)@ == old(other)@.with_entries(old(self)@.messages),
    {
        let mut taken: Vec<Diagnostic> = Vec::new();
        core::mem::swap(&mut self.messages, &mut taken);
        assert(self@.messages =~= Seq::<Entry>::empty());
        let ghost all = entries(taken@);
        let mut moved: Vec<Diagnostic> = Vec::new();
        let mut i: usize = 0;
        assert(other@.messages =~= old(other)@.with_entries(all.take(0)).messages);
        while i < taken.len()
            invariant
                i <= taken.len(),
                all == entries(taken@),
                other@ == old(other)@.with_entries(all.take(i as int)),
            decreases taken.len() - i,
        {
            let mut context = copy_messages(&other.parents);
            let mut inner = copy_messages(&taken[i].context);
            let ghost outer = notices(context@);
            context.append(&mut inner);
            let message = taken[i].message.clone();
            assert(notices(context@) =~= outer + all[i as int].context);
            let ghost before = other.messages@;
            other.messages.push(Diagnostic { message, context });
            proof {
                lemma_entries_push(before, other.messages@.last());
                assert(all.take(i + 1) == all.take(i as int).push(all[i as int]));
                assert(nested_all(outer, all.take(i + 1)) =~= nested_all(outer, all.take(i as int)).push(
                    nested(outer, all[i as int]),
                ));
                assert(other@.messages =~= old(other)@.with_entries(all.take(i + 1)).messages);
            }
            i = i + 1;
        }
        assert(all.take(taken.len() as int) == all);
    }

    /// Whether some message, an entry's own or one of its headings, has the given kind, points
    /// at the given file and line, and holds `excerpt` in its text.
    pub fn has_message_at(&self, file: &str, kind: MessageKind, line: usize, excerpt: &str) -> (r:
        bool)
        ensures
            r == exists|i: int|
                0 <= i < self@.messages.len() && entry_matches(
                    #[trigger] self@.messages[i],
                    file@,
                    kind,
                    line,
                    excerpt@,
                ),
    {
        let file_chars = to_chars(file);
        let excerpt_chars = to_chars(excerpt);
        let mut i: usize = 0;
        while i < self.messages.len()
            invariant
                i <= self.messages.len(),
                file_chars@ == file@,
                excerpt_chars@ == excerpt@,
                forall|j: int|
                    0 <= j < i ==> !entry_matches(
                        #[trigger] self@.messages[j],
                        file@,
                        kind,
                        line,
                        excerpt@,
                    ),
            decreases self.messages.len() - i,
        {
            let d = &self.messages[i];
            if message_matches(&d.message, &file_chars, kind, line, &excerpt_chars) {
                assert(entry_matches(self@.messages[i as int], file@, kind, line, excerpt@));
                return true;
            }
            let mut k: usize = 0;
            while k < d.context.len()
                invariant
                    k <= d.context.len(),
                    i < self.messages.len(),
                    *d == self.messages@[i as int],
                    file_chars@ == file@,
                    excerpt_chars@ == excerpt@,
                    forall|j: int|
                        0 <= j < k ==> !notice_matches(
                            #[trigger] notices(d.context@)[j],
                            file@,
                            kind,
                            line,
                            excerpt@,
                        ),
                decreases d.context.len() - k,
            {
                if message_matches(&d.context[k], &file_chars, kind, line, &excerpt_chars) {
                    assert(notice_matches(notices(d.context@)[k as int], file@, kind, line, excerpt@));
                    assert(self@.messages[i as int] == d@);
                    assert(self@.messages[i as int].context[k as int] == notices(d.context@)[k as int]);
                    assert(entry_matches(self@.messages[i as int], file@, kind, line, excerpt@));
                    return true;
                }
                k = k + 1;
            }
            assert(self@.messages[i as int] == d@);
            i = i + 1;
        }
        false
    }
}

/// Whether a message has the given kind, points at the given file and line, and holds
/// `excerpt` in its text.
pub fn message_matches(
    m: &Message,
    file: &Vec<char>,
    kind: MessageKind,
    line: usize,
    excerpt: &Vec<char>,
) -> (r: bool)
    ensures
        r == notice_matches(m@, file@, kind, line, excerpt@),
{
    if m.kind != kind {
        return false;
    }
    match &m.span {
        None => false,
        Some(span) => {
            if span.line != line {
                return false;
            }
            let here = to_chars(span.file.as_str());
            if !same_chars(&here, file) {
                return false;
            }
            let descr = to_chars(m.descr.as_str());
            has_substring(&descr, excerpt)
        },
    }
}

/// Whether two texts are the same, character by character.
pub fn same_chars(a: &Vec<char>, b: &Vec<char>) -> (r: bool)
    ensures
        r == (a@ == b@),
{
    if a.len() != b.len() {
        return false;
    }
    let mut i: usize = 0;
    while i < a.len()
        invariant
            i <= a.len(),
            a.len() == b.len(),
            forall|j: int| 0 <= j < i ==> a@[j] == b@[j],
        decreases a.len() - i,
    {
        if a[i] != b[i] {
            return false;
        }
        i = i + 1;
    }
    assert(a@ =~= b@);
    true
}

} // verus!
