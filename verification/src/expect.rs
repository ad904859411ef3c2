use vstd::prelude::*;
use vstd::string::*;
use crate::bitvec::BitVec;
use crate::diagn::{entry_matches, count_with_context, MessageKind, Report, Transcript};
use crate::text::{
    bounds_within, contains, find_within, first_occurrence, occurs_at, parse_number,
    parsed_number, pieces, range_is, split, split_bounds, to_chars, trim_bounds, trimmed,
};

verus! {

/// One diagnostic that a test file expects: its kind, the file and the line (counted from
/// zero) it points at, and a text that its description holds.
#[derive(Debug)]
pub struct TestMessageExpectation {
    pub file: String,
    pub kind: MessageKind,
    pub line: usize,
    pub excerpt: String,
}

/// What a `TestMessageExpectation` stands for.
pub struct ExpectedMessage {
    pub file: Seq<char>,
    pub kind: MessageKind,
    pub line: usize,
    pub excerpt: Seq<char>,
}

impl View for TestMessageExpectation {
    type V = ExpectedMessage;

    open spec fn view(&self) -> ExpectedMessage {
        ExpectedMessage { file: self.file@, kind: self.kind, line: self.line, excerpt: self.excerpt@ }
    }
}

/// What a list of expected messages stands for.
pub open spec fn expected_messages(v: Seq<TestMessageExpectation>) -> Seq<ExpectedMessage> {
    v.map_values(|m: TestMessageExpectation| m@)
}

/// What a test file expects of its assembly: whether it expects anything at all, the bits of
/// the image, and the diagnostics.
#[derive(Debug)]
pub struct TestExpectations {
    pub has_any: bool,
    pub output: BitVec,
    pub messages: Vec<TestMessageExpectation>,
}

/// What a `TestExpectations` stands for.
pub struct Expected {
    pub has_any: bool,
    pub output: Seq<bool>,
    pub messages: Seq<ExpectedMessage>,
}

impl View for TestExpectations {
    type V = Expected;

    open spec fn view(&self) -> Expected {
        Expected {
            has_any: self.has_any,
            output: self.output@,
            messages: expected_messages(self.messages@),
        }
    }
}

/// The value of a hexadecimal digit, in either case.
pub open spec fn hex_value(c: char) -> Option<nat> {
    if '0' <= c <= '9' {
        Some((c as u32 - 48) as nat)
    } else if 'a' <= c <= 'f' {
        Some((c as u32 - 87) as nat)
    } else if 'A' <= c <= 'F' {
        Some((c as u32 - 55) as nat)
    } else {
        None
    }
}

/// The four bits of a hexadecimal digit, most significant bit first.
pub open spec fn nibble_bits(n: nat) -> Seq<bool> {
    seq![n / 8 % 2 == 1, n / 4 % 2 == 1, n / 2 % 2 == 1, n % 2 == 1]
}

/// The bits that a text of hexadecimal digits spells, four for each digit, in the order of
/// the digits; a text that holds anything but such digits spells none.
pub open spec fn hex_bits(digits: Seq<char>) -> Option<Seq<bool>>
    decreases digits.len(),
{
    if digits.len() == 0 {
        Some(Seq::empty())
    } else {
        match (hex_bits(digits.drop_last()), hex_value(digits.last())) {
            (Some(bits), Some(n)) => Some(bits + nibble_bits(n)),
            _ => None,
        }
    }
}

/// The bits that a literal `0x...` spells; `0x` alone spells no bits.
pub open spec fn literal_bits(s: Seq<char>) -> Option<Seq<bool>> {
    if s.len() >= 2 && s[0] == '0' && s[1] == 'x' {
        hex_bits(s.skip(2))
    } else {
        None
    }
}

/// The first position at which `needle` stands in `hay`, where it stands in it at all.
pub open spec fn first_index(hay: Seq<char>, needle: Seq<char>) -> int {
    choose|at: int| first_occurrence(hay, needle, 0, at)
}

/// There is one first position at most.
pub proof fn lemma_first_index(hay: Seq<char>, needle: Seq<char>, at: int)
    requires
        first_occurrence(hay, needle, 0, at),
    ensures
        first_index(hay, needle) == at,
        contains(hay, needle),
{
    let other = first_index(hay, needle);
    assert(first_occurrence(hay, needle, 0, other));
}

/// Each of `parts` without the white space at its two ends.
pub open spec fn trimmed_all(parts: Seq<Seq<char>>) -> Seq<Seq<char>> {
    parts.map_values(|p: Seq<char>| trimmed(p))
}

/// The kind that a word names.
pub open spec fn kind_of(word: Seq<char>) -> Option<MessageKind> {
    if word == "error"@ {
        Some(MessageKind::Error)
    } else if word == "note"@ {
        Some(MessageKind::Note)
    } else {
        None
    }
}

/// The diagnostic that one expectation names, written on line `line_num` of `filename`.
///
/// Its parts stand between colons. `KIND: EXCERPT` expects the diagnostic at the line it is
/// written on. `KIND: FILE: LINE: EXCERPT` names the file, `_` standing for `filename`, and
/// the line, counted from one. Anything else names no diagnostic.
pub open spec fn message_of(text: Seq<char>, filename: Seq<char>, line_num: usize) -> Option<
    ExpectedMessage,
> {
    let parts = trimmed_all(split(text, ':'));
    match kind_of(parts[0]) {
        None => None,
        Some(kind) => if parts.len() > 2 {
            if parts.len() < 4 {
                None
            } else {
                match parsed_number(parts[2]) {
                    Some(n) => if n >= 1 {
                        Some(
                            ExpectedMessage {
                                file: if parts[1] == "_"@ {
                                    filename
                                } else {
                                    parts[1]
                                },
                                kind,
                                line: (n - 1) as usize,
                                excerpt: parts[3],
                            },
                        )
                    } else {
                        None
                    },
                    None => None,
                }
            }
        } else if parts.len() == 2 {
            Some(ExpectedMessage { file: filename, kind, line: line_num, excerpt: parts[1] })
        } else {
            None
        },
    }
}

/// The diagnostics that a list of expectations names, in order; none where one of them names
/// no diagnostic.
pub open spec fn messages_of(texts: Seq<Seq<char>>, filename: Seq<char>, line_num: usize) -> Option<
    Seq<ExpectedMessage>,
>
    decreases texts.len(),
{
    if texts.len() == 0 {
        Some(Seq::empty())
    } else {
        match (
            messages_of(texts.drop_last(), filename, line_num),
            message_of(trimmed(texts.last()), filename, line_num),
        ) {
            (Some(before), Some(m)) => Some(before.push(m)),
            _ => None,
        }
    }
}

/// What a line of a test file says of what is expected.
pub enum LineMeaning {
    Nothing,
    Output(Seq<bool>),
    Messages(Seq<ExpectedMessage>),
}

/// What line `line_num` of `filename` says, or nothing where it cannot be read.
///
/// A line that holds `; =` gives bits of the image: the literal that follows. Else a line
/// that holds `; error:` or `; note:` gives diagnostics: what follows its first `;`, cut at
/// each `/`. Any other line that holds both `;` and `:` cannot be read; the rest say nothing.
pub open spec fn line_meaning(line: Seq<char>, filename: Seq<char>, line_num: usize) -> Option<
    LineMeaning,
> {
    if contains(line, "; ="@) {
        match literal_bits(trimmed(line.skip(first_index(line, "; ="@) + 3))) {
            Some(bits) => Some(LineMeaning::Output(bits)),
            None => None,
        }
    } else if contains(line, "; error:"@) || contains(line, "; note:"@) {
        match messages_of(split(line.skip(first_index(line, "; "@) + 1), '/'), filename, line_num) {
            Some(messages) => Some(LineMeaning::Messages(messages)),
            None => None,
        }
    } else if contains(line, ";"@) && contains(line, ":"@) {
        None
    } else {
        Some(LineMeaning::Nothing)
    }
}

/// A line without the carriage return that may end it.
pub open spec fn without_return(line: Seq<char>) -> Seq<char> {
    if line.len() > 0 && line.last() == '\r' {
        line.drop_last()
    } else {
        line
    }
}

/// The lines of a text: what stands between its line feeds, each without the carriage return
/// that may end it. A line feed at the end of the text starts no further line.
pub open spec fn lines_of(s: Seq<char>) -> Seq<Seq<char>> {
    let parts = split(s, '\n');
    let kept = if parts.len() > 0 && parts.last().len() == 0 {
        parts.drop_last()
    } else {
        parts
    };
    kept.map_values(|l: Seq<char>| without_return(l))
}

/// Nothing expected yet.
pub open spec fn nothing_expected() -> Expected {
    Expected { has_any: false, output: Seq::empty(), messages: Seq::empty() }
}

/// What is expected after a line with the meaning `meaning` was read.
pub open spec fn with_line(acc: Expected, meaning: LineMeaning) -> Expected {
    match meaning {
        LineMeaning::Nothing => acc,
        LineMeaning::Output(bits) => Expected {
            has_any: true,
            output: acc.output + bits,
            messages: acc.messages,
        },
        LineMeaning::Messages(messages) => Expected {
            has_any: true,
            output: acc.output,
            messages: acc.messages + messages,
        },
    }
}

/// What the lines from `k` on add to what the lines before them expect; nothing where one of
/// them cannot be read.
pub open spec fn expected_from(lines: Seq<Seq<char>>, filename: Seq<char>, k: int, acc: Expected) -> Option<
    Expected,
>
    decreases lines.len() - k,
{
    if k < 0 || k >= lines.len() {
        Some(acc)
    } else {
        match line_meaning(lines[k], filename, k as usize) {
            None => None,
            Some(meaning) => expected_from(lines, filename, k + 1, with_line(acc, meaning)),
        }
    }
}

/// What a test file expects, or nothing where one of its lines cannot be read.
pub open spec fn expectations(filename: Seq<char>, contents: Seq<char>) -> Option<Expected> {
    expected_from(lines_of(contents), filename, 0, nothing_expected())
}

/// A text that holds something that is no hexadecimal digit spells no bits.
pub proof fn lemma_no_hex_no_bits(s: Seq<char>, at: int)
    requires
        0 <= at < s.len(),
        hex_value(s[at]).is_none(),
    ensures
        hex_bits(s).is_none(),
    decreases s.len(),
{
    if at < s.len() - 1 {
        lemma_no_hex_no_bits(s.drop_last(), at);
    }
}

/// Reads `v[lo..hi]` as hexadecimal digits.
pub fn read_hex(v: &Vec<char>, lo: usize, hi: usize) -> (r: Option<Vec<bool>>)
    requires
        lo <= hi <= v.len(),
    ensures
        match r {
            Some(bits) => hex_bits(v@.subrange(lo as int, hi as int)) == Some(bits@),
            None => hex_bits(v@.subrange(lo as int, hi as int)).is_none(),
        },
{
    let ghost digits = v@.subrange(lo as int, hi as int);
    let mut out: Vec<bool> = Vec::new();
    let mut i: usize = lo;
    assert(digits.take(0) =~= Seq::empty());
    while i < hi
        invariant
            lo <= i <= hi <= v.len(),
            digits == v@.subrange(lo as int, hi as int),
            hex_bits(digits.take(i - lo)) == Some(out@),
        decreases hi - i,
    {
        let c = v[i];
        let n: u32 = if '0' <= c && c <= '9' {
            c as u32 - 48
        } else if 'a' <= c && c <= 'f' {
            c as u32 - 87
        } else if 'A' <= c && c <= 'F' {
            c as u32 - 55
        } else {
            proof {
                lemma_no_hex_no_bits(digits, i - lo);
            }
            return None;
        };
        let ghost before = out@;
        out.push(n / 8 % 2 == 1);
        out.push(n / 4 % 2 == 1);
        out.push(n / 2 % 2 == 1);
        out.push(n % 2 == 1);
        proof {
            let now = digits.take(i - lo + 1);
            assert(now.drop_last() == digits.take(i - lo));
            assert(now.last() == c);
            assert(out@ =~= before + nibble_bits(n as nat));
        }
        i = i + 1;
    }
    assert(digits.take(hi - lo) == digits);
    Some(out)
}

/// Reads `v[lo..hi]` as a literal `0x...`.
pub fn read_literal(v: &Vec<char>, lo: usize, hi: usize) -> (r: Option<Vec<bool>>)
    requires
        lo <= hi <= v.len(),
    ensures
        match r {
            Some(bits) => literal_bits(v@.subrange(lo as int, hi as int)) == Some(bits@),
            None => literal_bits(v@.subrange(lo as int, hi as int)).is_none(),
        },
{
    let ghost s = v@.subrange(lo as int, hi as int);
    if hi - lo >= 2 && v[lo] == '0' && v[lo + 1] == 'x' {
        assert(s.skip(2) == v@.subrange(lo + 2, hi as int));
        read_hex(v, lo + 2, hi)
    } else {
        None
    }
}

/// What an optional expected message stands for.
pub open spec fn message_view(m: Option<TestMessageExpectation>) -> Option<ExpectedMessage> {
    match m {
        Some(m) => Some(m@),
        None => None,
    }
}

/// The bounds of each of the pieces that `bounds` cuts out, without the white space at its
/// two ends.
pub fn trim_all(v: &Vec<char>, bounds: &Vec<(usize, usize)>, lo: usize, hi: usize) -> (r: Vec<
    (usize, usize),
>)
    requires
        lo <= hi <= v.len(),
        bounds_within(bounds@, lo as int, hi as int),
    ensures
        bounds_within(r@, lo as int, hi as int),
        pieces(v@, r@) == trimmed_all(pieces(v@, bounds@)),
{
    let mut r: Vec<(usize, usize)> = Vec::new();
    let mut i: usize = 0;
    while i < bounds.len()
        invariant
            i <= bounds.len(),
            lo <= hi <= v.len(),
            bounds_within(bounds@, lo as int, hi as int),
            bounds_within(r@, lo as int, hi as int),
            r.len() == i,
            forall|j: int|
                0 <= j < i ==> v@.subrange((#[trigger] r@[j]).0 as int, r@[j].1 as int) == trimmed(
                    v@.subrange(bounds@[j].0 as int, bounds@[j].1 as int),
                ),
        decreases bounds.len() - i,
    {
        let b = bounds[i];
        assert(lo <= bounds@[i as int].0 <= bounds@[i as int].1 <= hi);
        let t = trim_bounds(v, b.0, b.1);
        r.push(t);
        i = i + 1;
    }
    assert(pieces(v@, r@) =~= trimmed_all(pieces(v@, bounds@)));
    r
}

/// Reads `v[lo..hi]` as one expectation of a diagnostic, written on line `line_num` of
/// `filename`.
pub fn read_message(
    v: &Vec<char>,
    contents: &str,
    lo: usize,
    hi: usize,
    filename: &str,
    line_num: usize,
) -> (r: Option<TestMessageExpectation>)
    requires
        v@ == contents@,
        lo <= hi <= v.len(),
    ensures
        message_view(r) == message_of(v@.subrange(lo as int, hi as int), filename@, line_num),
{
    let cuts = split_bounds(v, lo, hi, ':');
    let parts = trim_all(v, &cuts, lo, hi);
    let ghost texts = trimmed_all(split(v@.subrange(lo as int, hi as int), ':'));
    assert(pieces(v@, parts@) == texts);
    assert(parts.len() == texts.len());
    assert(forall|i: int|
        0 <= i < parts.len() ==> lo <= (#[trigger] parts@[i]).0 <= parts@[i].1 <= hi);
    let first = parts[0];
    assert(texts[0] == v@.subrange(first.0 as int, first.1 as int));
    let kind = if range_is(v, first.0, first.1, "error") {
        MessageKind::Error
    } else if range_is(v, first.0, first.1, "note") {
        MessageKind::Note
    } else {
        return None;
    };
    if parts.len() > 2 {
        if parts.len() < 4 {
            return None;
        }
        let named = parts[1];
        let number = parts[2];
        let quoted = parts[3];
        assert(texts[1] == v@.subrange(named.0 as int, named.1 as int));
        assert(texts[2] == v@.subrange(number.0 as int, number.1 as int));
        assert(texts[3] == v@.subrange(quoted.0 as int, quoted.1 as int));
        match parse_number(v, number.0, number.1) {
            Some(n) => {
                if n < 1 {
                    return None;
                }
                let file = if range_is(v, named.0, named.1, "_") {
                    String::from_str(filename)
                } else {
                    String::from_str(contents.substring_char(named.0, named.1))
                };
                let excerpt = String::from_str(contents.substring_char(quoted.0, quoted.1));
                Some(TestMessageExpectation { file, kind, line: n - 1, excerpt })
            },
            None => None,
        }
    } else if parts.len() == 2 {
        let quoted = parts[1];
        assert(texts[1] == v@.subrange(quoted.0 as int, quoted.1 as int));
        let excerpt = String::from_str(contents.substring_char(quoted.0, quoted.1));
        Some(TestMessageExpectation { file: String::from_str(filename), kind, line: line_num, excerpt })
    } else {
        None
    }
}

/// A list of expectations of which one names no diagnostic names none.
pub proof fn lemma_no_message_no_messages(
    texts: Seq<Seq<char>>,
    filename: Seq<char>,
    line_num: usize,
    at: int,
)
    requires
        0 <= at < texts.len(),
        message_of(trimmed(texts[at]), filename, line_num).is_none(),
    ensures
        messages_of(texts, filename, line_num).is_none(),
    decreases texts.len(),
{
    if at < texts.len() - 1 {
        lemma_no_message_no_messages(texts.drop_last(), filename, line_num, at);
    }
}

/// What an optional list of expected messages stands for.
pub open spec fn messages_view(m: Option<Vec<TestMessageExpectation>>) -> Option<
    Seq<ExpectedMessage>,
> {
    match m {
        Some(v) => Some(expected_messages(v@)),
        None => None,
    }
}

/// Reads `v[lo..hi]` as expectations of diagnostics, one between each two `/`.
pub fn read_messages(
    v: &Vec<char>,
    contents: &str,
    lo: usize,
    hi: usize,
    filename: &str,
    line_num: usize,
) -> (r: Option<Vec<TestMessageExpectation>>)
    requires
        v@ == contents@,
        lo <= hi <= v.len(),
    ensures
        messages_view(r) == messages_of(
            split(v@.subrange(lo as int, hi as int), '/'),
            filename@,
            line_num,
        ),
{
    let cuts = split_bounds(v, lo, hi, '/');
    let ghost texts = split(v@.subrange(lo as int, hi as int), '/');
    let mut out: Vec<TestMessageExpectation> = Vec::new();
    let mut i: usize = 0;
    assert(texts.take(0) =~= Seq::empty());
    assert(expected_messages(out@) =~= Seq::empty());
    while i < cuts.len()
        invariant
            i <= cuts.len(),
            v@ == contents@,
            lo <= hi <= v.len(),
            bounds_within(cuts@, lo as int, hi as int),
            pieces(v@, cuts@) == texts,
            texts == split(v@.subrange(lo as int, hi as int), '/'),
            messages_of(texts.take(i as int), filename@, line_num) == Some(expected_messages(out@)),
        decreases cuts.len() - i,
    {
        let cut = cuts[i];
        assert(lo <= cuts@[i as int].0 <= cuts@[i as int].1 <= hi);
        assert(texts[i as int] == v@.subrange(cut.0 as int, cut.1 as int));
        let (a, b) = trim_bounds(v, cut.0, cut.1);
        match read_message(v, contents, a, b, filename, line_num) {
            Some(m) => {
                let ghost before = out@;
                out.push(m);
                proof {
                    let now = texts.take(i + 1);
                    assert(now.drop_last() == texts.take(i as int));
                    assert(now.last() == texts[i as int]);
                    assert(expected_messages(out@) =~= expected_messages(before).push(m@));
                }
            },
            None => {
                proof {
                    lemma_no_message_no_messages(texts, filename@, line_num, i as int);
                }
                return None;
            },
        }
        i = i + 1;
    }
    assert(texts.take(cuts.len() as int) == texts);
    Some(out)
}

/// What a line of a test file says, as read.
#[derive(Debug)]
pub enum LineExpectation {
    Nothing,
    Output(Vec<bool>),
    Messages(Vec<TestMessageExpectation>),
}

impl View for LineExpectation {
    type V = LineMeaning;

    open spec fn view(&self) -> LineMeaning {
        match self {
            LineExpectation::Nothing => LineMeaning::Nothing,
            LineExpectation::Output(bits) => LineMeaning::Output(bits@),
            LineExpectation::Messages(messages) => LineMeaning::Messages(
                expected_messages(messages@),
            ),
        }
    }
}

/// What an optional line expectation stands for.
pub open spec fn line_view(l: Option<LineExpectation>) -> Option<LineMeaning> {
    match l {
        Some(l) => Some(l@),
        None => None,
    }
}

/// Where `word` stands first in `v[lo..hi]`.
pub fn find_word(v: &Vec<char>, lo: usize, hi: usize, word: &str) -> (r: Option<usize>)
    requires
        lo <= hi <= v.len(),
    ensures
        match r {
            Some(at) => {
                &&& lo <= at
                &&& at + word@.len() <= hi
                &&& contains(v@.subrange(lo as int, hi as int), word@)
                &&& first_index(v@.subrange(lo as int, hi as int), word@) == at - lo
            },
            None => !contains(v@.subrange(lo as int, hi as int), word@),
        },
{
    let w = to_chars(word);
    let r = find_within(v, lo, hi, &w);
    proof {
        match r {
            Some(at) => {
                lemma_first_index(v@.subrange(lo as int, hi as int), word@, at - lo);
            },
            None => {},
        }
    }
    r
}

/// Reads `v[lo..hi]` as line `line_num` of `filename`.
pub fn read_line(
    v: &Vec<char>,
    contents: &str,
    lo: usize,
    hi: usize,
    filename: &str,
    line_num: usize,
) -> (r: Option<LineExpectation>)
    requires
        v@ == contents@,
        lo <= hi <= v.len(),
    ensures
        line_view(r) == line_meaning(v@.subrange(lo as int, hi as int), filename@, line_num),
{
    let ghost line = v@.subrange(lo as int, hi as int);
    proof {
        reveal_strlit("; =");
        reveal_strlit("; ");
    }
    match find_word(v, lo, hi, "; =") {
        Some(at) => {
            assert(line.skip(at - lo + 3) == v@.subrange(at + 3, hi as int));
            let (a, b) = trim_bounds(v, at + 3, hi);
            return match read_literal(v, a, b) {
                Some(bits) => Some(LineExpectation::Output(bits)),
                None => None,
            };
        },
        None => {},
    }
    if find_word(v, lo, hi, "; error:").is_some() || find_word(v, lo, hi, "; note:").is_some() {
        match find_word(v, lo, hi, "; ") {
            Some(at) => {
                assert(line.skip(at - lo + 1) == v@.subrange(at + 1, hi as int));
                match read_messages(v, contents, at + 1, hi, filename, line_num) {
                    Some(messages) => Some(LineExpectation::Messages(messages)),
                    None => None,
                }
            },
            None => {
                proof {
                    lemma_marker_holds_prefix(line);
                }
                None
            },
        }
    } else if find_word(v, lo, hi, ";").is_some() && find_word(v, lo, hi, ":").is_some() {
        None
    } else {
        Some(LineExpectation::Nothing)
    }
}

/// A text that holds `; error:` or `; note:` holds `; `.
pub proof fn lemma_marker_holds_prefix(line: Seq<char>)
    requires
        contains(line, "; error:"@) || contains(line, "; note:"@),
    ensures
        contains(line, "; "@),
{
    reveal_strlit("; error:");
    reveal_strlit("; note:");
    reveal_strlit("; ");
    let marker = if contains(line, "; error:"@) {
        "; error:"@
    } else {
        "; note:"@
    };
    let at = choose|at: int| occurs_at(line, marker, at);
    assert(line.subrange(at, at + 2) =~= line.subrange(at, at + marker.len()).subrange(0, 2));
    assert(marker.subrange(0, 2) =~= "; "@);
    assert(occurs_at(line, "; "@, at));
}


/// The expected messages of two lists, one after the other.
pub proof fn lemma_expected_messages_add(a: Seq<TestMessageExpectation>, b: Seq<TestMessageExpectation>)
    ensures
        expected_messages(a + b) == expected_messages(a) + expected_messages(b),
{
    assert(expected_messages(a + b) =~= expected_messages(a) + expected_messages(b));
}

/// Reads what a test file expects of its assembly from the comments in its lines.
///
/// `; = 0x...` gives bits of the image, `; error: ...` and `; note: ...` give diagnostics. A
/// file with a line that cannot be read is refused.
pub fn extract_expectations(filename: &str, contents: &str) -> (r: Result<TestExpectations, ()>)
    ensures
        match expectations(filename@, contents@) {
            Some(expected) => r.is_ok() && r.unwrap()@ == expected,
            None => r.is_err(),
        },
{
    let v = to_chars(contents);
    assert(v@.subrange(0, v.len() as int) == v@);
    let cuts = split_bounds(&v, 0, v.len(), '\n');
    let ghost parts = split(contents@, '\n');
    let last = cuts[cuts.len() - 1];
    assert(parts.last() == v@.subrange(last.0 as int, last.1 as int));
    let count = if last.0 == last.1 {
        cuts.len() - 1
    } else {
        cuts.len()
    };
    let ghost lines = lines_of(contents@);
    assert(lines.len() == count);
    let mut expectations = TestExpectations {
        has_any: false,
        output: BitVec::new(),
        messages: Vec::new(),
    };
    assert(expectations@.messages =~= Seq::empty());
    let mut k: usize = 0;
    while k < count
        invariant
            k <= count <= cuts.len(),
            v@ == contents@,
            parts == split(contents@, '\n'),
            pieces(v@, cuts@) == parts,
            bounds_within(cuts@, 0, v.len() as int),
            lines == lines_of(contents@),
            lines.len() == count,
            expected_from(lines, filename@, k as int, expectations@) == expected_from(
                lines,
                filename@,
                0,
                nothing_expected(),
            ),
        decreases count - k,
    {
        let cut = cuts[k];
        assert(0 <= cuts@[k as int].0 <= cuts@[k as int].1 <= v.len());
        assert(parts[k as int] == v@.subrange(cut.0 as int, cut.1 as int));
        let hi = if cut.1 > cut.0 && v[cut.1 - 1] == '\r' {
            cut.1 - 1
        } else {
            cut.1
        };
        proof {
            let whole = v@.subrange(cut.0 as int, cut.1 as int);
            assert(without_return(whole) =~= v@.subrange(cut.0 as int, hi as int));
            assert(lines[k as int] == without_return(parts[k as int]));
        }
        match read_line(&v, contents, cut.0, hi, filename, k) {
            None => {
                return Err(());
            },
            Some(LineExpectation::Nothing) => {},
            Some(LineExpectation::Output(bits)) => {
                expectations.has_any = true;
                expectations.output.append_bits(&bits);
            },
            Some(LineExpectation::Messages(messages)) => {
                let mut messages = messages;
                let ghost before = expectations.messages@;
                let ghost added = messages@;
                expectations.has_any = true;
                expectations.messages.append(&mut messages);
                proof {
                    lemma_expected_messages_add(before, added);
                }
            },
        }
        k = k + 1;
    }
    Ok(expectations)
}

/// How the outcome of an assembly compares with what a test file expects.
#[derive(Copy, Clone, Debug, PartialEq, Eq, Structural)]
pub enum TestVerdict {
    /// The file expects nothing: there is nothing to compare.
    Skipped,
    /// Every expectation is met.
    Passed,
    /// The expected message at this position was not reported.
    MissingMessage(usize),
    /// The number of messages reported is not the number expected.
    CountMismatch,
    /// The image is not the image expected.
    OutputMismatch,
}

/// Whether the report holds the expected message.
pub open spec fn is_reported(report: Transcript, m: ExpectedMessage) -> bool {
    exists|i: int|
        0 <= i < report.messages.len() && entry_matches(
            #[trigger] report.messages[i],
            m.file,
            m.kind,
            m.line,
            m.excerpt,
        )
}

/// A count as a machine word holds it: the largest word where it is beyond.
pub open spec fn saturated(n: nat) -> usize {
    if n <= usize::MAX {
        n as usize
    } else {
        usize::MAX
    }
}

/// Whether the number of expected messages is the number of entries of the report, counted
/// with their headings or without.
pub open spec fn counts_agree(expected: Expected, report: Transcript) -> bool {
    expected.messages.len() == saturated(count_with_context(report.messages))
        || expected.messages.len() == report.messages.len()
}

/// The bits that an assembly gave: those of the image, or none where it failed.
pub open spec fn image_or_nothing(output: Result<BitVec, ()>) -> Seq<bool> {
    match output {
        Ok(bitvec) => bitvec@,
        Err(_) => Seq::empty(),
    }
}

/// Compares the outcome of an assembly with what a test file expects.
///
/// A file that expects nothing is skipped. Else the first expected message that was not
/// reported decides; then the number of messages; then the image, of which a failed assembly
/// has none.
pub fn check_expectations(
    expectations: &TestExpectations,
    report: &Report,
    output: &Result<BitVec, ()>,
) -> (r: TestVerdict)
    ensures
        match r {
            TestVerdict::Skipped => !expectations@.has_any,
            TestVerdict::MissingMessage(at) => {
                &&& expectations@.has_any
                &&& at < expectations@.messages.len()
                &&& !is_reported(report@, expectations@.messages[at as int])
                &&& forall|j: int|
                    0 <= j < at ==> is_reported(report@, #[trigger] expectations@.messages[j])
            },
            TestVerdict::CountMismatch => {
                &&& expectations@.has_any
                &&& forall|j: int|
                    0 <= j < expectations@.messages.len() ==> is_reported(
                        report@,
                        #[trigger] expectations@.messages[j],
                    )
                &&& !counts_agree(expectations@, report@)
            },
            TestVerdict::OutputMismatch => {
                &&& expectations@.has_any
                &&& forall|j: int|
                    0 <= j < expectations@.messages.len() ==> is_reported(
                        report@,
                        #[trigger] expectations@.messages[j],
                    )
                &&& counts_agree(expectations@, report@)
                &&& image_or_nothing(*output) != expectations@.output
            },
            TestVerdict::Passed => {
                &&& expectations@.has_any
                &&& forall|j: int|
                    0 <= j < expectations@.messages.len() ==> is_reported(
                        report@,
                        #[trigger] expectations@.messages[j],
                    )
                &&& counts_agree(expectations@, report@)
                &&& image_or_nothing(*output) == expectations@.output
            },
        },
{
    if !expectations.has_any {
        return TestVerdict::Skipped;
    }
    let mut i: usize = 0;
    while i < expectations.messages.len()
        invariant
            i <= expectations.messages.len(),
            expectations.has_any,
            forall|j: int| 0 <= j < i ==> is_reported(report@, #[trigger] expectations@.messages[j]),
        decreases expectations.messages.len() - i,
    {
        let msg = &expectations.messages[i];
        assert(expectations@.messages[i as int] == msg@);
        if !report.has_message_at(msg.file.as_str(), msg.kind, msg.line, msg.excerpt.as_str()) {
            return TestVerdict::MissingMessage(i);
        }
        i = i + 1;
    }
    let expected = expectations.messages.len();
    if expected != report.len_with_submessages() && expected != report.len() {
        return TestVerdict::CountMismatch;
    }
    let same = match output {
        Ok(bitvec) => bitvec.same_as(&expectations.output),
        Err(_) => expectations.output.len() == 0,
    };
    proof {
        if output.is_err() {
            assert((expectations.output@.len() == 0) == (Seq::<bool>::empty()
                =~= expectations.output@));
        }
    }
    if same {
        TestVerdict::Passed
    } else {
        TestVerdict::OutputMismatch
    }
}


} // verus!
