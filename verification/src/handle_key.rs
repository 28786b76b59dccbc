//! The key under which a handler is registered and looked up.
use vstd::prelude::*;
use crate::text::{
    after_first_path_sep, chars_of, dots_for_path_seps, join, lemma_after_first_has_no_path_sep,
    lemma_join_tail_is_after_first, path_sep_at, push_char, split_path,
};

verus! {

/// The key of a handler type, computed from its full type name: the `::`
/// pieces after the first one, joined with `.` (`logger::Log` gives `Log`,
/// `a::b::C` gives `b.C`). Keys are compared without regard to case.
pub struct HandleKey {
    key: String,
}

/// The key of the type named `path`.
pub open spec fn key_of_path(path: Seq<char>) -> Seq<char> {
    join(split_path(path).skip(1), seq!['.'])
}

impl View for HandleKey {
    type V = Seq<char>;

    closed spec fn view(&self) -> Seq<char> {
        self.key@
    }
}

impl HandleKey {
    /// The key of the type named `path`.
    pub fn from_path(path: &str) -> (k: HandleKey)
        ensures
            k@ == key_of_path(path@),
    {
        let v = chars_of(path);
        let n = v.len();
        let mut i: usize = 0;
        let mut found = false;
        let mut out = String::new();
        assert(v@.skip(0) =~= v@);
        while i < n
            invariant
                i <= n == v@.len(),
                v@ == path@,
                !found ==> out@ == Seq::<char>::empty() && after_first_path_sep(v@)
                    == after_first_path_sep(v@.skip(i as int)),
                found ==> after_first_path_sep(v@) == out@ + dots_for_path_seps(
                    v@.skip(i as int),
                ),
            decreases n - i,
        {
            let ghost rest = v@.skip(i as int);
            assert(rest.skip(1) =~= v@.skip(i + 1));
            let sep = i + 1 < n && v[i] == ':' && v[i + 1] == ':';
            assert(sep == path_sep_at(rest, 0));
            if sep {
                assert(rest.skip(2) =~= v@.skip(i + 2));
                if found {
                    let ghost before = out@;
                    push_char(&mut out, '.');
                    assert(out@ + dots_for_path_seps(v@.skip(i + 2)) =~= before + (seq!['.']
                        + dots_for_path_seps(v@.skip(i + 2))));
                }
                found = true;
                i = i + 2;
            } else {
                if found {
                    let ghost before = out@;
                    push_char(&mut out, v[i]);
                    assert(out@ + dots_for_path_seps(v@.skip(i + 1)) =~= before + (seq![v@[i as int]]
                        + dots_for_path_seps(v@.skip(i + 1))));
                }
                i = i + 1;
            }
        }
        proof {
            assert(v@.skip(n as int) =~= Seq::<char>::empty());
            lemma_join_tail_is_after_first(path@);
        }
        HandleKey { key: out }
    }

    /// The key, as text.
    pub fn as_str(&self) -> (s: &str)
        ensures
            s@ == self@,
    {
        self.key.as_str()
    }
}


/// A key never holds `::`: the pieces of the path are joined with `.`.
pub proof fn lemma_key_has_no_path_sep(path: Seq<char>)
    ensures
        forall|i: int| !path_sep_at(#[trigger] key_of_path(path), i),
{
    lemma_join_tail_is_after_first(path);
    lemma_after_first_has_no_path_sep(path);
}

/// A path with no `::` gives the empty key; `a::rest` gives the key of the
/// rest joined with `.`, whatever `a` is when it holds no `:`.
pub proof fn lemma_key_of_simple_paths(a: Seq<char>, rest: Seq<char>)
    requires
        !a.contains(':'),
    ensures
        key_of_path(a) == Seq::<char>::empty(),
        key_of_path(a + seq![':', ':'] + rest) == dots_for_path_seps(rest),
{
    lemma_join_tail_is_after_first(a);
    lemma_join_tail_is_after_first(a + seq![':', ':'] + rest);
    lemma_after_first_skips_plain(a, Seq::<char>::empty());
    lemma_after_first_skips_plain(a, seq![':', ':'] + rest);
    assert(a + seq![':', ':'] + rest =~= a + (seq![':', ':'] + rest));
    let t = seq![':', ':'] + rest;
    assert(t.skip(2) =~= rest);
    assert(after_first_path_sep(Seq::<char>::empty()) == Seq::<char>::empty());
    assert(a + Seq::<char>::empty() =~= a);
}

proof fn lemma_after_first_skips_plain(a: Seq<char>, t: Seq<char>)
    requires
        !a.contains(':'),
    ensures
        after_first_path_sep(a + t) == after_first_path_sep(t),
    decreases a.len(),
{
    if a.len() > 0 {
        assert(a[0] != ':') by {
            if a[0] == ':' {
                assert(a.contains(':'));
            }
        }
        assert((a + t).skip(1) =~= a.skip(1) + t);
        assert(!a.skip(1).contains(':')) by {
            if a.skip(1).contains(':') {
                let k = choose|k: int| 0 <= k < a.skip(1).len() && #[trigger] a.skip(1)[k] == ':';
                assert(a[k + 1] == ':');
                assert(a.contains(':'));
            }
        }
        lemma_after_first_skips_plain(a.skip(1), t);
    } else {
        assert(a + t =~= t);
    }
}

} // verus!
