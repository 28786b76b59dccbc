//! Character-level text helpers shared by the rest of the library: splitting
//! and joining of character sequences, and conversion between `&str`,
//! `Vec<char>` and `String`.
use vstd::prelude::*;

verus! {

/// `s` has the two characters `::` at position `i`.
pub open spec fn path_sep_at(s: Seq<char>, i: int) -> bool {
    0 <= i && i + 1 < s.len() && s[i] == ':' && s[i + 1] == ':'
}

/// The pieces of `s` between occurrences of `::`, matched from the left and
/// without overlap, as `str::split("::")` yields them. There is always at
/// least one piece.
pub open spec fn split_path(s: Seq<char>) -> Seq<Seq<char>>
    decreases s.len(),
{
    if s.len() == 0 {
        seq![Seq::<char>::empty()]
    } else if path_sep_at(s, 0) {
        seq![Seq::<char>::empty()] + split_path(s.skip(2))
    } else {
        let rest = split_path(s.skip(1));
        rest.update(0, seq![s[0]] + rest[0])
    }
}

/// The pieces joined with `sep` between each two neighbours, as
/// `itertools::join` writes them.
pub open spec fn join(pieces: Seq<Seq<char>>, sep: Seq<char>) -> Seq<char>
    decreases pieces.len(),
{
    if pieces.len() == 0 {
        Seq::<char>::empty()
    } else if pieces.len() == 1 {
        pieces[0]
    } else {
        pieces[0] + sep + join(pieces.skip(1), sep)
    }
}

/// `s` with every `::` (matched from the left, without overlap) replaced by a
/// single `.`.
pub open spec fn dots_for_path_seps(s: Seq<char>) -> Seq<char>
    decreases s.len(),
{
    if s.len() == 0 {
        Seq::<char>::empty()
    } else if path_sep_at(s, 0) {
        seq!['.'] + dots_for_path_seps(s.skip(2))
    } else {
        seq![s[0]] + dots_for_path_seps(s.skip(1))
    }
}

/// The text after the first `::` of `s`, with each later `::` replaced by
/// `.`; empty when `s` holds no `::`.
pub open spec fn after_first_path_sep(s: Seq<char>) -> Seq<char>
    decreases s.len(),
{
    if s.len() == 0 {
        Seq::<char>::empty()
    } else if path_sep_at(s, 0) {
        dots_for_path_seps(s.skip(2))
    } else {
        after_first_path_sep(s.skip(1))
    }
}

pub proof fn lemma_split_path_nonempty(s: Seq<char>)
    ensures
        split_path(s).len() >= 1,
    decreases s.len(),
{
    if s.len() == 0 {
    } else if path_sep_at(s, 0) {
        lemma_split_path_nonempty(s.skip(2));
    } else {
        lemma_split_path_nonempty(s.skip(1));
    }
}

proof fn lemma_join_extend_first(r: Seq<Seq<char>>, p: Seq<char>, sep: Seq<char>)
    requires
        r.len() >= 1,
    ensures
        join(r.update(0, p + r[0]), sep) == p + join(r, sep),
{
    let u = r.update(0, p + r[0]);
    if r.len() == 1 {
    } else {
        assert(u.skip(1) =~= r.skip(1));
        assert(p + r[0] + sep + join(r.skip(1), sep) =~= p + (r[0] + sep + join(
            r.skip(1),
            sep,
        )));
    }
}

/// Joining the `::`-pieces of `s` with `.` replaces each `::` by `.`.
pub proof fn lemma_join_split_is_dots(s: Seq<char>)
    ensures
        join(split_path(s), seq!['.']) == dots_for_path_seps(s),
    decreases s.len(),
{
    if s.len() == 0 {
    } else if path_sep_at(s, 0) {
        let rest = split_path(s.skip(2));
        lemma_split_path_nonempty(s.skip(2));
        lemma_join_split_is_dots(s.skip(2));
        let whole = seq![Seq::<char>::empty()] + rest;
        assert(whole.skip(1) =~= rest);
        assert(whole[0] =~= Seq::<char>::empty());
        assert(Seq::<char>::empty() + seq!['.'] + join(rest, seq!['.']) =~= seq!['.']
            + join(rest, seq!['.']));
    } else {
        let rest = split_path(s.skip(1));
        lemma_split_path_nonempty(s.skip(1));
        lemma_join_split_is_dots(s.skip(1));
        lemma_join_extend_first(rest, seq![s[0]], seq!['.']);
    }
}

/// Joining with `.` every `::`-piece of `s` but the first gives the text after
/// the first `::` with the later ones replaced by `.`.
pub proof fn lemma_join_tail_is_after_first(s: Seq<char>)
    ensures
        join(split_path(s).skip(1), seq!['.']) == after_first_path_sep(s),
    decreases s.len(),
{
    if s.len() == 0 {
        assert(split_path(s).skip(1) =~= Seq::<Seq<char>>::empty());
    } else if path_sep_at(s, 0) {
        let rest = split_path(s.skip(2));
        assert((seq![Seq::<char>::empty()] + rest).skip(1) =~= rest);
        lemma_join_split_is_dots(s.skip(2));
    } else {
        let rest = split_path(s.skip(1));
        lemma_split_path_nonempty(s.skip(1));
        assert(rest.update(0, seq![s[0]] + rest[0]).skip(1) =~= rest.skip(1));
        lemma_join_tail_is_after_first(s.skip(1));
    }
}


/// The first character of `dots_for_path_seps(s)` is `.` where `s` starts
/// with `::`, and the first character of `s` otherwise.
proof fn lemma_dots_first(s: Seq<char>)
    ensures
        dots_for_path_seps(s).len() == 0 <==> s.len() == 0,
        s.len() > 0 ==> dots_for_path_seps(s)[0] == (if path_sep_at(s, 0) {
            '.'
        } else {
            s[0]
        }),
{
}

/// Replacing every `::` by `.` leaves no `::` behind.
pub proof fn lemma_dots_have_no_path_sep(s: Seq<char>)
    ensures
        forall|i: int| !path_sep_at(dots_for_path_seps(s), i),
    decreases s.len(),
{
    if s.len() > 0 {
        let d = dots_for_path_seps(s);
        if path_sep_at(s, 0) {
            let rest = dots_for_path_seps(s.skip(2));
            lemma_dots_have_no_path_sep(s.skip(2));
            assert forall|i: int| !path_sep_at(d, i) by {
                if path_sep_at(d, i) && i > 0 {
                    assert(d[i] == rest[i - 1] && d[i + 1] == rest[i]);
                    assert(path_sep_at(rest, i - 1));
                }
            }
        } else {
            let t = s.skip(1);
            let rest = dots_for_path_seps(t);
            lemma_dots_have_no_path_sep(t);
            lemma_dots_first(t);
            assert forall|i: int| !path_sep_at(d, i) by {
                if path_sep_at(d, i) {
                    if i == 0 {
                        assert(s[0] == ':' && rest[0] == ':');
                        assert(t[0] == s[1]);
                    } else {
                        assert(d[i] == rest[i - 1] && d[i + 1] == rest[i]);
                        assert(path_sep_at(rest, i - 1));
                    }
                }
            }
        }
    }
}

/// The text after the first `::` of `s`, with the later ones replaced by `.`,
/// holds no `::`.
pub proof fn lemma_after_first_has_no_path_sep(s: Seq<char>)
    ensures
        forall|i: int| !path_sep_at(after_first_path_sep(s), i),
    decreases s.len(),
{
    if s.len() > 0 {
        if path_sep_at(s, 0) {
            lemma_dots_have_no_path_sep(s.skip(2));
            assert(after_first_path_sep(s) == dots_for_path_seps(s.skip(2)));
        } else {
            lemma_after_first_has_no_path_sep(s.skip(1));
            assert(after_first_path_sep(s) == after_first_path_sep(s.skip(1)));
        }
    }
}

/// Appends `c` to `s`.
#[verifier::external_body]
pub(crate) fn push_char(s: &mut String, c: char)
    ensures
        final(s)@ == old(s)@.push(c),
{
    s.push(c)
}

/// The characters of `s`, in order.
pub fn chars_of(s: &str) -> (out: Vec<char>)
    ensures
        out@ == s@,
{
    let mut out: Vec<char> = Vec::new();
    for c in it: s.chars()
        invariant
            out@ == it.seq().take(it.index() as int),
            it.seq() == s@,
    {
        out.push(c);
    }
    out
}

/// A `String` holding the characters `v[from..to]`.
pub fn string_from_range(v: &Vec<char>, from: usize, to: usize) -> (out: String)
    requires
        from <= to <= v.len(),
    ensures
        out@ == v@.subrange(from as int, to as int),
{
    let mut out = String::new();
    let mut i = from;
    while i < to
        invariant
            from <= i <= to <= v.len(),
            out@ == v@.subrange(from as int, i as int),
        decreases to - i,
    {
        push_char(&mut out, v[i]);
        i = i + 1;
        assert(out@ =~= v@.subrange(from as int, i as int));
    }
    out
}

} // verus!
