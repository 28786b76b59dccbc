//! The context a handler runs in: the id of the request it answers, and the
//! lines it sends back, each a JSON object on a line of its own.
use vstd::prelude::*;
use crate::foreign::{hex_digit, json_escaped, json_escaped_char, json_quoted, json_string};
use crate::text::chars_of;
use vstd::string::StringExecFns;

verus! {

/// The JSON text `null`.
pub open spec fn null_text() -> Seq<char> {
    seq!['n', 'u', 'l', 'l']
}

/// The line end that closes every message.
pub open spec fn crlf() -> Seq<char> {
    seq!['\r', '\n']
}

/// The `"id":"…",` member of a message, absent when the id is empty.
pub open spec fn id_member(id: Seq<char>) -> Seq<char> {
    if id.len() == 0 {
        Seq::<char>::empty()
    } else {
        seq!['"', 'i', 'd', '"', ':'] + json_quoted(id) + seq![',']
    }
}

/// The `"tag":"…"` member of a message; it is always there.
pub open spec fn tag_member(tag: Seq<char>) -> Seq<char> {
    seq!['"', 't', 'a', 'g', '"', ':'] + json_quoted(tag)
}

/// The `,"value":…` member of a message, absent when the value is `null`.
pub open spec fn value_member(value: Seq<char>) -> Seq<char> {
    if value == null_text() {
        Seq::<char>::empty()
    } else {
        seq![',', '"', 'v', 'a', 'l', 'u', 'e', '"', ':'] + value
    }
}

/// The `,"error":…` member of a message, absent when the error is `null`.
pub open spec fn error_member(error: Seq<char>) -> Seq<char> {
    if error == null_text() {
        Seq::<char>::empty()
    } else {
        seq![',', '"', 'e', 'r', 'r', 'o', 'r', '"', ':'] + error
    }
}

/// The line sent for a request `id`: a compact JSON object with the members
/// `id` (left out when empty), `tag`, `value` and `error` (each left out when
/// `null`), in that order, followed by `\r\n`. `value` and `error` are JSON
/// texts; `id` and `tag` are plain texts.
pub open spec fn tagged_line(
    id: Seq<char>,
    tag: Seq<char>,
    value: Seq<char>,
    error: Seq<char>,
) -> Seq<char> {
    seq!['{'] + id_member(id) + tag_member(tag) + value_member(value) + error_member(error)
        + seq!['}'] + crlf()
}

/// Whether the text `s` is the JSON text `null`.
pub fn is_null_text(s: &str) -> (b: bool)
    ensures
        b == (s@ == null_text()),
{
    let v = chars_of(s);
    let b = v.len() == 4 && v[0] == 'n' && v[1] == 'u' && v[2] == 'l' && v[3] == 'l';
    proof {
        if b {
            assert(v@ =~= null_text());
        }
    }
    b
}

/// The line sent for a request `id`; see [`tagged_line`].
pub fn make_tagged_line(id: &str, tag: &str, value: &str, error: &str) -> (line: String)
    ensures
        line@ == tagged_line(id@, tag@, value@, error@),
{
    let mut line = String::new();
    line.append("{");
    proof {
        reveal_strlit("{");
    }
    assert(line@ =~= seq!['{']);
    if !id.is_empty() {
        let quoted = json_string(id);
        line.append("\"id\":");
        line.append(quoted.as_str());
        line.append(",");
        proof {
            reveal_strlit("\"id\":");
            reveal_strlit(",");
        }
    }
    assert(line@ =~= seq!['{'] + id_member(id@));
    let quoted_tag = json_string(tag);
    line.append("\"tag\":");
    line.append(quoted_tag.as_str());
    proof {
        reveal_strlit("\"tag\":");
    }
    assert(line@ =~= seq!['{'] + id_member(id@) + tag_member(tag@));
    if !is_null_text(value) {
        line.append(",\"value\":");
        line.append(value);
        proof {
            reveal_strlit(",\"value\":");
        }
    }
    assert(line@ =~= seq!['{'] + id_member(id@) + tag_member(tag@) + value_member(value@));
    if !is_null_text(error) {
        line.append(",\"error\":");
        line.append(error);
        proof {
            reveal_strlit(",\"error\":");
        }
    }
    line.append("}\r\n");
    proof {
        reveal_strlit("}\r\n");
    }
    assert(line@ =~= tagged_line(id@, tag@, value@, error@));
    line
}

/// One answer a handler gives through its context, by what was handed to it.
pub enum Answer {
    /// [`HandleContext::reply`] with this tag and JSON value text.
    Reply { tag: Seq<char>, value: Seq<char> },
    /// [`HandleContext::error`] with this tag and JSON error text.
    Error { tag: Seq<char>, error: Seq<char> },
    /// [`HandleContext::error_string`] with this plain text.
    ErrorText { text: Seq<char> },
}

/// The line written for `answer` in the context of request `id`.
pub open spec fn answer_line(id: Seq<char>, answer: Answer) -> Seq<char> {
    match answer {
        Answer::Reply { tag, value } => tagged_line(id, tag, value, null_text()),
        Answer::Error { tag, error } => tagged_line(id, tag, null_text(), error),
        Answer::ErrorText { text } => tagged_line(
            id,
            Seq::<char>::empty(),
            null_text(),
            json_quoted(text),
        ),
    }
}

/// The lines a context for request `id` holds after `answers` were given, in
/// that order, starting from `start`: each answer adds its line at the end.
pub open spec fn lines_after(start: Seq<Seq<char>>, id: Seq<char>, answers: Seq<Answer>) -> Seq<
    Seq<char>,
>
    decreases answers.len(),
{
    if answers.len() == 0 {
        start
    } else {
        lines_after(start, id, answers.drop_last()).push(answer_line(id, answers.last()))
    }
}

/// After any `n` answers given to a fresh context, its lines are exactly `n`,
/// the `k`-th being the line of the `k`-th answer: nothing is dropped, merged,
/// reordered or added.
pub proof fn lemma_answers_in_order(id: Seq<char>, answers: Seq<Answer>)
    ensures
        lines_after(Seq::<Seq<char>>::empty(), id, answers).len() == answers.len(),
        forall|k: int|
            0 <= k < answers.len() ==> #[trigger] lines_after(
                Seq::<Seq<char>>::empty(),
                id,
                answers,
            )[k] == answer_line(id, answers[k]),
    decreases answers.len(),
{
    if answers.len() > 0 {
        let init = answers.drop_last();
        lemma_answers_in_order(id, init);
        assert forall|k: int| 0 <= k < answers.len() implies #[trigger] lines_after(
            Seq::<Seq<char>>::empty(),
            id,
            answers,
        )[k] == answer_line(id, answers[k]) by {
            if k < init.len() {
                assert(init[k] == answers[k]);
                assert(lines_after(Seq::<Seq<char>>::empty(), id, init)[k] == answer_line(
                    id,
                    init[k],
                ));
            }
        }
    }
}

/// The context of one request: its id, and the lines written in answer so
/// far, in the order they were written.
pub struct HandleContext {
    id: String,
    messages: Vec<String>,
}

impl HandleContext {
    /// The id of the request.
    pub closed spec fn id_view(&self) -> Seq<char> {
        self.id@
    }

    /// The lines written so far, oldest first.
    pub closed spec fn messages_view(&self) -> Seq<Seq<char>> {
        self.messages@.map_values(|m: String| m@)
    }

    /// A context for the request `id`, with nothing written yet.
    pub fn new(id: String) -> (ctx: HandleContext)
        ensures
            ctx.id_view() == id@,
            ctx.messages_view() == Seq::<Seq<char>>::empty(),
    {
        let ctx = HandleContext { id, messages: Vec::new() };
        assert(ctx.messages_view() =~= Seq::<Seq<char>>::empty());
        ctx
    }

    fn push_line(&mut self, line: String)
        ensures
            final(self).id_view() == old(self).id_view(),
            final(self).messages_view() == old(self).messages_view().push(line@),
    {
        self.messages.push(line);
        assert(self.messages_view() =~= old(self).messages_view().push(line@));
    }

    /// Answers with a value: `tag` names the value's type and `value` is the
    /// value as JSON text.
    pub fn reply(&mut self, tag: &str, value: &str)
        ensures
            final(self).id_view() == old(self).id_view(),
            final(self).messages_view() == old(self).messages_view().push(
                answer_line(old(self).id_view(), Answer::Reply { tag: tag@, value: value@ }),
            ),
    {
        let line = make_tagged_line(self.id.as_str(), tag, value, "null");
        proof {
            reveal_strlit("null");
            assert("null"@ =~= null_text());
        }
        self.push_line(line);
    }

    /// Answers with an error: `tag` names the error's type and `error` is the
    /// error as JSON text.
    pub fn error(&mut self, tag: &str, error: &str)
        ensures
            final(self).id_view() == old(self).id_view(),
            final(self).messages_view() == old(self).messages_view().push(
                answer_line(old(self).id_view(), Answer::Error { tag: tag@, error: error@ }),
            ),
    {
        let line = make_tagged_line(self.id.as_str(), tag, "null", error);
        proof {
            reveal_strlit("null");
            assert("null"@ =~= null_text());
        }
        self.push_line(line);
    }

    /// Answers with an error given as plain text: the error is sent as a JSON
    /// string, under an empty tag.
    pub fn error_string(&mut self, error: &str)
        ensures
            final(self).id_view() == old(self).id_view(),
            final(self).messages_view() == old(self).messages_view().push(
                answer_line(old(self).id_view(), Answer::ErrorText { text: error@ }),
            ),
    {
        let quoted = json_string(error);
        let no_tag = String::new();
        let line = make_tagged_line(self.id.as_str(), no_tag.as_str(), "null", quoted.as_str());
        proof {
            reveal_strlit("null");
            assert("null"@ =~= null_text());
        }
        self.push_line(line);
    }

    /// The lines written, oldest first.
    pub fn take_messages(self) -> (messages: Vec<String>)
        ensures
            messages@.map_values(|m: String| m@) == self.messages_view(),
    {
        self.messages
    }
}


/// `s` holds neither `\r` nor `\n`.
pub open spec fn no_line_break(s: Seq<char>) -> bool {
    forall|i: int| 0 <= i < s.len() ==> #[trigger] s[i] != '\r' && s[i] != '\n'
}

proof fn lemma_no_line_break_concat(a: Seq<char>, b: Seq<char>)
    requires
        no_line_break(a),
        no_line_break(b),
    ensures
        no_line_break(a + b),
{
    assert forall|i: int| 0 <= i < (a + b).len() implies #[trigger] (a + b)[i] != '\r' && (a
        + b)[i] != '\n' by {
        if i < a.len() {
            assert((a + b)[i] == a[i]);
        } else {
            assert((a + b)[i] == b[i - a.len()]);
        }
    }
}

proof fn lemma_escaped_no_line_break(s: Seq<char>)
    ensures
        no_line_break(json_escaped(s)),
    decreases s.len(),
{
    if s.len() > 0 {
        let c = s[0];
        let e = json_escaped_char(c);
        if (c as u32) < 0x20 && c != '\u{8}' && c != '\t' && c != '\n' && c != '\u{c}' && c
            != '\r' {
            assert((c as u32) / 16 < 16 && (c as u32) % 16 < 16);
            assert(hex_digit((c as u32) / 16) != '\r' && hex_digit((c as u32) / 16) != '\n');
            assert(hex_digit((c as u32) % 16) != '\r' && hex_digit((c as u32) % 16) != '\n');
        }
        assert(no_line_break(e));
        lemma_escaped_no_line_break(s.skip(1));
        lemma_no_line_break_concat(e, json_escaped(s.skip(1)));
    }
}

/// Text written as a JSON string holds no raw line break.
pub proof fn lemma_quoted_no_line_break(s: Seq<char>)
    ensures
        no_line_break(json_quoted(s)),
{
    lemma_escaped_no_line_break(s);
    lemma_no_line_break_concat(seq!['"'], json_escaped(s));
    lemma_no_line_break_concat(seq!['"'] + json_escaped(s), seq!['"']);
}

/// Every line a context writes is one JSON object: it starts with `{` and
/// ends with `}` and `\r\n`.
pub proof fn lemma_line_framing(id: Seq<char>, tag: Seq<char>, value: Seq<char>, error: Seq<char>)
    ensures
        tagged_line(id, tag, value, error).len() >= 3,
        tagged_line(id, tag, value, error)[0] == '{',
        tagged_line(id, tag, value, error).subrange(
            tagged_line(id, tag, value, error).len() - 3,
            tagged_line(id, tag, value, error).len() as int,
        ) == seq!['}', '\r', '\n'],
{
    let l = tagged_line(id, tag, value, error);
    let body = seq!['{'] + id_member(id) + tag_member(tag) + value_member(value) + error_member(
        error,
    );
    assert(l =~= body + seq!['}', '\r', '\n']);
    assert(l.subrange(l.len() - 3, l.len() as int) =~= seq!['}', '\r', '\n']);
}

/// A line answering with a plain-text error, or with a value and error given
/// as texts without line breaks, breaks only at its very end: the peer reads
/// it as one line.
pub proof fn lemma_line_is_one_line(id: Seq<char>, tag: Seq<char>, value: Seq<char>, error: Seq<char>)
    requires
        no_line_break(value),
        no_line_break(error),
    ensures
        no_line_break(
            tagged_line(id, tag, value, error).subrange(
                0,
                tagged_line(id, tag, value, error).len() - 2,
            ),
        ),
{
    lemma_quoted_no_line_break(id);
    lemma_quoted_no_line_break(tag);
    let idm = id_member(id);
    let tm = tag_member(tag);
    let vm = value_member(value);
    let em = error_member(error);
    if id.len() > 0 {
        lemma_no_line_break_concat(seq!['"', 'i', 'd', '"', ':'], json_quoted(id));
        lemma_no_line_break_concat(seq!['"', 'i', 'd', '"', ':'] + json_quoted(id), seq![',']);
    }
    lemma_no_line_break_concat(seq!['"', 't', 'a', 'g', '"', ':'], json_quoted(tag));
    if value != null_text() {
        lemma_no_line_break_concat(seq![',', '"', 'v', 'a', 'l', 'u', 'e', '"', ':'], value);
    }
    if error != null_text() {
        lemma_no_line_break_concat(seq![',', '"', 'e', 'r', 'r', 'o', 'r', '"', ':'], error);
    }
    lemma_no_line_break_concat(seq!['{'], idm);
    lemma_no_line_break_concat(seq!['{'] + idm, tm);
    lemma_no_line_break_concat(seq!['{'] + idm + tm, vm);
    lemma_no_line_break_concat(seq!['{'] + idm + tm + vm, em);
    lemma_no_line_break_concat(seq!['{'] + idm + tm + vm + em, seq!['}']);
    let l = tagged_line(id, tag, value, error);
    assert(l.subrange(0, l.len() - 2) =~= seq!['{'] + idm + tm + vm + em + seq!['}']);
}

/// A plain-text error goes out as one line.
pub proof fn lemma_error_string_is_one_line(id: Seq<char>, text: Seq<char>)
    ensures
        no_line_break(
            tagged_line(id, Seq::<char>::empty(), null_text(), json_quoted(text)).subrange(
                0,
                tagged_line(id, Seq::<char>::empty(), null_text(), json_quoted(text)).len() - 2,
            ),
        ),
{
    lemma_quoted_no_line_break(text);
    lemma_line_is_one_line(id, Seq::<char>::empty(), null_text(), json_quoted(text));
}


/// The opening of every line for request `id` up to its tag: `{`, then
/// `"id":"…",` when the id is not empty, then `"tag":"…"`, written out in
/// full.
proof fn lemma_line_opening(id: Seq<char>, tag: Seq<char>)
    ensures
        seq!['{'] + id_member(id) + tag_member(tag) == seq!['{'] + (if id.len() == 0 {
            Seq::<char>::empty()
        } else {
            seq!['"', 'i', 'd', '"', ':'] + json_quoted(id) + seq![',']
        }) + seq!['"', 't', 'a', 'g', '"', ':'] + json_quoted(tag),
{
}

/// A reply's value text goes out verbatim, as the `value` member right after
/// the tag and right before the closing `}` and line end, whatever it is,
/// unless it is the JSON text `null`, which is left out; a reply never holds
/// an `error` member.
pub proof fn lemma_reply_line(id: Seq<char>, tag: Seq<char>, value: Seq<char>)
    ensures
        value != null_text() ==> answer_line(id, Answer::Reply { tag, value }) == seq!['{'] + (
        if id.len() == 0 {
            Seq::<char>::empty()
        } else {
            seq!['"', 'i', 'd', '"', ':'] + json_quoted(id) + seq![',']
        }) + seq!['"', 't', 'a', 'g', '"', ':'] + json_quoted(tag) + seq![
            ',',
            '"',
            'v',
            'a',
            'l',
            'u',
            'e',
            '"',
            ':',
        ] + value + seq!['}', '\r', '\n'],
        value == null_text() ==> answer_line(id, Answer::Reply { tag, value }) == seq!['{'] + (
        if id.len() == 0 {
            Seq::<char>::empty()
        } else {
            seq!['"', 'i', 'd', '"', ':'] + json_quoted(id) + seq![',']
        }) + seq!['"', 't', 'a', 'g', '"', ':'] + json_quoted(tag) + seq!['}', '\r', '\n'],
{
    lemma_line_opening(id, tag);
    let open = seq!['{'] + id_member(id) + tag_member(tag);
    assert(answer_line(id, Answer::Reply { tag, value }) == open + value_member(value)
        + error_member(null_text()) + seq!['}'] + crlf());
    assert(error_member(null_text()) =~= Seq::<char>::empty());
    if value != null_text() {
        assert(open + value_member(value) + error_member(null_text()) + seq!['}'] + crlf() =~= open
            + seq![',', '"', 'v', 'a', 'l', 'u', 'e', '"', ':'] + value + seq!['}', '\r', '\n']);
    } else {
        assert(open + value_member(value) + error_member(null_text()) + seq!['}'] + crlf() =~= open
            + seq!['}', '\r', '\n']);
    }
}

/// An error's text goes out verbatim, as the `error` member right after the
/// tag, unless it is the JSON text `null`, which is left out; an error line
/// never holds a `value` member.
pub proof fn lemma_error_line(id: Seq<char>, tag: Seq<char>, error: Seq<char>)
    ensures
        error != null_text() ==> answer_line(id, Answer::Error { tag, error }) == seq!['{'] + (
        if id.len() == 0 {
            Seq::<char>::empty()
        } else {
            seq!['"', 'i', 'd', '"', ':'] + json_quoted(id) + seq![',']
        }) + seq!['"', 't', 'a', 'g', '"', ':'] + json_quoted(tag) + seq![
            ',',
            '"',
            'e',
            'r',
            'r',
            'o',
            'r',
            '"',
            ':',
        ] + error + seq!['}', '\r', '\n'],
        error == null_text() ==> answer_line(id, Answer::Error { tag, error }) == seq!['{'] + (
        if id.len() == 0 {
            Seq::<char>::empty()
        } else {
            seq!['"', 'i', 'd', '"', ':'] + json_quoted(id) + seq![',']
        }) + seq!['"', 't', 'a', 'g', '"', ':'] + json_quoted(tag) + seq!['}', '\r', '\n'],
{
    lemma_line_opening(id, tag);
    let open = seq!['{'] + id_member(id) + tag_member(tag);
    assert(answer_line(id, Answer::Error { tag, error }) == open + value_member(null_text())
        + error_member(error) + seq!['}'] + crlf());
    assert(value_member(null_text()) =~= Seq::<char>::empty());
    if error != null_text() {
        assert(open + value_member(null_text()) + error_member(error) + seq!['}'] + crlf() =~= open
            + seq![',', '"', 'e', 'r', 'r', 'o', 'r', '"', ':'] + error + seq!['}', '\r', '\n']);
    } else {
        assert(open + value_member(null_text()) + error_member(error) + seq!['}'] + crlf() =~= open
            + seq!['}', '\r', '\n']);
    }
}

/// A plain-text error always goes out, as a JSON string in the `error`
/// member, under the empty tag.
pub proof fn lemma_error_text_line(id: Seq<char>, text: Seq<char>)
    ensures
        answer_line(id, Answer::ErrorText { text }) == seq!['{'] + (if id.len() == 0 {
            Seq::<char>::empty()
        } else {
            seq!['"', 'i', 'd', '"', ':'] + json_quoted(id) + seq![',']
        }) + seq!['"', 't', 'a', 'g', '"', ':', '"', '"'] + seq![
            ',',
            '"',
            'e',
            'r',
            'r',
            'o',
            'r',
            '"',
            ':',
        ] + json_quoted(text) + seq!['}', '\r', '\n'],
{
    assert(json_quoted(text)[0] == '"');
    assert(json_quoted(text) != null_text());
    assert(json_escaped(Seq::<char>::empty()) =~= Seq::<char>::empty());
    assert(json_quoted(Seq::<char>::empty()) =~= seq!['"', '"']);
    lemma_error_line(id, Seq::<char>::empty(), json_quoted(text));
    assert(seq!['"', 't', 'a', 'g', '"', ':'] + json_quoted(Seq::<char>::empty()) =~= seq![
        '"',
        't',
        'a',
        'g',
        '"',
        ':',
        '"',
        '"',
    ]);
}

} // verus!
