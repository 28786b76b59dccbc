//! Reading an incoming line that is not a JSON object (`temp.record;12.34`, or
//! a bare tag such as `Ping`), and fanning replies out to every endpoint.
use vstd::prelude::*;
use crate::text::{chars_of, string_from_range};

verus! {

/// An incoming line read as `tag;value`, or as a bare tag.
#[derive(Debug)]
pub struct PlainMessage {
    /// The text before the first `;`, or the whole line when it holds none.
    pub tag: String,
    /// The text after the first `;`, when there is one.
    pub remaining: Option<String>,
}

/// The line `message` splits at `i`, its first `;`.
pub open spec fn first_semicolon_at(message: Seq<char>, i: int) -> bool {
    &&& 0 <= i < message.len()
    &&& message[i] == ';'
    &&& !message.take(i).contains(';')
}

/// Splits `message` at its first `;` into the tag before it and the value
/// after it, as `str::split_once(';')` does; a line without `;` is all tag.
pub fn split_plain(message: &str) -> (p: PlainMessage)
    ensures
        match p.remaining {
            Some(rest) => message@ == p.tag@ + seq![';'] + rest@ && !p.tag@.contains(';'),
            None => p.tag@ == message@ && !message@.contains(';'),
        },
{
    let v = chars_of(message);
    let n = v.len();
    let mut i: usize = 0;
    while i < n
        invariant
            i <= n == v@.len(),
            v@ == message@,
            forall|k: int| 0 <= k < i ==> v@[k] != ';',
        decreases n - i,
    {
        if v[i] == ';' {
            let tag = string_from_range(&v, 0, i);
            let rest = string_from_range(&v, i + 1, n);
            assert(v@ =~= v@.subrange(0, i as int) + seq![';'] + v@.subrange(i + 1, n as int));
            assert(!tag@.contains(';')) by {
                if tag@.contains(';') {
                    let k = choose|k: int| 0 <= k < tag@.len() && #[trigger] tag@[k] == ';';
                    assert(v@[k] == ';');
                }
            }
            return PlainMessage { tag, remaining: Some(rest) };
        }
        i = i + 1;
    }
    let tag = string_from_range(&v, 0, n);
    assert(v@.subrange(0, n as int) =~= v@);
    assert(!v@.contains(';')) by {
        if v@.contains(';') {
            let k = choose|k: int| 0 <= k < v@.len() && #[trigger] v@[k] == ';';
            assert(v@[k] == ';');
        }
    }
    PlainMessage { tag, remaining: None }
}

/// The sends that pass `messages` on to `n` endpoints: each message, in
/// order, to endpoint 0, 1, …, `n - 1`.
pub open spec fn deliveries(messages: Seq<Seq<char>>, n: nat) -> Seq<(int, Seq<char>)>
    decreases messages.len(),
{
    if messages.len() == 0 {
        Seq::<(int, Seq<char>)>::empty()
    } else {
        deliveries(messages.drop_last(), n) + Seq::new(n, |j: int| (j, messages.last()))
    }
}

/// The sends, in order, that pass `messages` on to `n_endpoints` endpoints:
/// every message goes to every endpoint, the first message to all of them
/// before the second, and so on.
pub fn plan_deliveries(messages: &Vec<String>, n_endpoints: usize) -> (plan: Vec<(usize, String)>)
    ensures
        plan@.map_values(|d: (usize, String)| (d.0 as int, d.1@)) == deliveries(
            messages@.map_values(|m: String| m@),
            n_endpoints as nat,
        ),
{
    let ghost msgs = messages@.map_values(|m: String| m@);
    let mut plan: Vec<(usize, String)> = Vec::new();
    let mut i: usize = 0;
    while i < messages.len()
        invariant
            i <= messages@.len(),
            msgs == messages@.map_values(|m: String| m@),
            plan@.map_values(|d: (usize, String)| (d.0 as int, d.1@)) == deliveries(
                msgs.take(i as int),
                n_endpoints as nat,
            ),
        decreases messages.len() - i,
    {
        let ghost before = plan@.map_values(|d: (usize, String)| (d.0 as int, d.1@));
        let mut j: usize = 0;
        while j < n_endpoints
            invariant
                i < messages@.len(),
                j <= n_endpoints,
                msgs == messages@.map_values(|m: String| m@),
                plan@.map_values(|d: (usize, String)| (d.0 as int, d.1@)) == before + Seq::new(
                    j as nat,
                    |k: int| (k, msgs[i as int]),
                ),
            decreases n_endpoints - j,
        {
            let text = messages[i].clone();
            assert(text@ == msgs[i as int]);
            let ghost prev = plan@;
            plan.push((j, text));
            assert(plan@.map_values(|d: (usize, String)| (d.0 as int, d.1@)) =~= prev.map_values(
                |d: (usize, String)| (d.0 as int, d.1@),
            ).push((j as int, msgs[i as int])));
            assert(plan@.map_values(|d: (usize, String)| (d.0 as int, d.1@)) =~= before
                + Seq::new((j + 1) as nat, |k: int| (k, msgs[i as int])));
            j = j + 1;
        }
        assert(msgs.take(i + 1).drop_last() =~= msgs.take(i as int));
        assert(msgs.take(i + 1).last() == msgs[i as int]);
        i = i + 1;
    }
    assert(msgs.take(messages.len() as int) =~= msgs);
    plan
}


/// A line built as `tag;value` from a tag without `;` is read back as that
/// tag and that value: the reading of [`split_plain`] is the only one its
/// contract allows.
pub proof fn lemma_plain_round_trip(
    tag: Seq<char>,
    value: Seq<char>,
    read_tag: Seq<char>,
    read_value: Seq<char>,
)
    requires
        !tag.contains(';'),
        !read_tag.contains(';'),
        tag + seq![';'] + value == read_tag + seq![';'] + read_value,
    ensures
        read_tag == tag,
        read_value == value,
{
    let m = tag + seq![';'] + value;
    assert(m[tag.len() as int] == ';');
    assert(m[read_tag.len() as int] == ';');
    if tag.len() < read_tag.len() {
        assert(read_tag[tag.len() as int] == m[tag.len() as int]);
        assert(read_tag.contains(';'));
    } else if read_tag.len() < tag.len() {
        assert(tag[read_tag.len() as int] == m[read_tag.len() as int]);
        assert(tag.contains(';'));
    }
    assert(tag =~= m.take(tag.len() as int));
    assert(read_tag =~= m.take(read_tag.len() as int));
    assert(value =~= m.skip(tag.len() as int + 1));
    assert(read_value =~= m.skip(read_tag.len() as int + 1));
}

/// Each message goes to each endpoint exactly once: there are
/// `messages.len() * n` sends, and send `i * n + j` passes message `i` to
/// endpoint `j`.
pub proof fn lemma_deliveries_cover(messages: Seq<Seq<char>>, n: nat, i: int, j: int)
    requires
        0 <= i < messages.len(),
        0 <= j < n,
    ensures
        deliveries(messages, n).len() == messages.len() * n,
        i * n + j < deliveries(messages, n).len(),
        deliveries(messages, n)[i * n + j] == (j, messages[i]),
    decreases messages.len(),
{
    lemma_deliveries_len(messages, n);
    let init = messages.drop_last();
    lemma_deliveries_len(init, n);
    let last = messages.len() - 1;
    assert(init.len() * n + n == messages.len() * n) by (nonlinear_arith)
        requires
            init.len() == messages.len() - 1,
    ;
    if i < last {
        lemma_deliveries_cover(init, n, i, j);
        assert(init[i] == messages[i]);
        assert(i * n + j < init.len() * n) by (nonlinear_arith)
            requires
                i < init.len(),
                j < n,
        ;
    } else {
        assert(i * n == init.len() * n);
    }
    assert(i * n + j < messages.len() * n) by (nonlinear_arith)
        requires
            i < messages.len(),
            j < n,
    ;
}

proof fn lemma_deliveries_len(messages: Seq<Seq<char>>, n: nat)
    ensures
        deliveries(messages, n).len() == messages.len() * n,
    decreases messages.len(),
{
    if messages.len() > 0 {
        lemma_deliveries_len(messages.drop_last(), n);
        assert((messages.len() - 1) * n + n == messages.len() * n) by (nonlinear_arith);
    }
}

} // verus!
