//! Registered handlers: what kinds of input each one accepts, the registry
//! that maps keys to handlers without regard to case, and the choice of the
//! handler and of its input for an incoming message.
use vstd::prelude::*;
use crate::foreign::{debug_quoted, debug_str, same_ignoring_case, same_key, unicase_eq};
use crate::handle_key::HandleKey;
use vstd::string::StringExecFns;

verus! {

/// A registered handler: which plain inputs it can be built from, and how it
/// is invoked.
#[derive(Clone)]
pub struct HandleWrapper<F> {
    /// It can be built when the message carries no value.
    pub can_handle_default: bool,
    /// It can be built from a JSON string.
    pub can_handle_string: bool,
    /// It can be built from a JSON floating-point number.
    pub can_handle_f64: bool,
    /// What runs it.
    pub invoke: F,
}

/// What the value of an incoming message is, as far as the choice of input
/// goes.
#[derive(Debug, Clone, Copy, PartialEq, Eq, Structural)]
pub enum ValueShape {
    /// JSON `null`, or no value at all.
    Null,
    /// A number held as a floating-point number.
    F64,
    /// A JSON string.
    String,
    /// Anything else.
    Other,
}

/// The input a handler is built from.
#[derive(Debug, Clone, Copy, PartialEq, Eq, Structural)]
pub enum InputKind {
    /// Deserialised from the JSON value.
    Json,
    /// Built from the string.
    String,
    /// Built from the number.
    F64,
    /// Built without input.
    Default,
}

/// The input chosen for a handler with the given abilities and a value of the
/// given shape: no value goes to a handler that can do without one; a float or
/// a string goes to a handler that can take it directly; everything else is
/// deserialised from JSON.
pub open spec fn chosen_input(
    can_default: bool,
    can_string: bool,
    can_f64: bool,
    shape: ValueShape,
) -> InputKind {
    if shape == ValueShape::Null && can_default {
        InputKind::Default
    } else if can_f64 && shape == ValueShape::F64 {
        InputKind::F64
    } else if can_string && shape == ValueShape::String {
        InputKind::String
    } else {
        InputKind::Json
    }
}

impl<F> HandleWrapper<F> {
    /// The input this handler is built from for a value of shape `shape`.
    pub fn input_kind(&self, shape: ValueShape) -> (k: InputKind)
        ensures
            k == chosen_input(
                self.can_handle_default,
                self.can_handle_string,
                self.can_handle_f64,
                shape,
            ),
            (k == InputKind::Default) <==> (shape == ValueShape::Null && self.can_handle_default),
            (k == InputKind::F64) <==> (shape == ValueShape::F64 && self.can_handle_f64),
            (k == InputKind::String) <==> (shape == ValueShape::String && self.can_handle_string),
    {
        if shape == ValueShape::Null && self.can_handle_default {
            InputKind::Default
        } else if self.can_handle_f64 && shape == ValueShape::F64 {
            InputKind::F64
        } else if self.can_handle_string && shape == ValueShape::String {
            InputKind::String
        } else {
            InputKind::Json
        }
    }
}

/// The first position in `keys` of a key that is the same as `tag`, if any.
pub open spec fn first_match(keys: Seq<Seq<char>>, tag: Seq<char>) -> Option<int>
    decreases keys.len(),
{
    if keys.len() == 0 {
        None
    } else {
        match first_match(keys.drop_last(), tag) {
            Some(i) => Some(i),
            None => if same_key(keys.last(), tag) {
                Some(keys.len() - 1)
            } else {
                None
            },
        }
    }
}

/// `first_match` is the first position whose key is the same as `tag`.
pub proof fn lemma_first_match(keys: Seq<Seq<char>>, tag: Seq<char>)
    ensures
        first_match(keys, tag) matches Some(i) ==> 0 <= i < keys.len() && same_key(
            keys[i],
            tag,
        ) && forall|j: int| 0 <= j < i ==> !same_key(#[trigger] keys[j], tag),
        first_match(keys, tag) is None ==> forall|j: int|
            0 <= j < keys.len() ==> !same_key(#[trigger] keys[j], tag),
    decreases keys.len(),
{
    if keys.len() > 0 {
        let init = keys.drop_last();
        let n = keys.len() - 1;
        lemma_first_match(init, tag);
        assert forall|j: int| 0 <= j < init.len() implies #[trigger] init[j] == keys[j] by {}
        assert(keys.last() == keys[n]);
        match first_match(init, tag) {
            Some(i) => {
                assert(same_key(keys[i], tag));
                assert forall|j: int| 0 <= j < i implies !same_key(#[trigger] keys[j], tag) by {
                    assert(init[j] == keys[j]);
                }
            },
            None => {
                assert forall|j: int| 0 <= j < n implies !same_key(#[trigger] keys[j], tag) by {
                    assert(init[j] == keys[j]);
                }
            },
        }
    }
}

/// No two of `keys` are the same, in either order.
pub open spec fn keys_distinct(keys: Seq<Seq<char>>) -> bool {
    forall|i: int, j: int|
        0 <= i < keys.len() && 0 <= j < keys.len() && i != j ==> !same_key(
            #[trigger] keys[i],
            #[trigger] keys[j],
        )
}

/// `key` is not the same as any of `keys`, in either order.
pub open spec fn fresh_key(keys: Seq<Seq<char>>, key: Seq<char>) -> bool {
    forall|i: int|
        0 <= i < keys.len() ==> !same_key(#[trigger] keys[i], key) && !same_key(key, keys[i])
}

/// The key at `i` is the one and only key of `keys` that is the same as
/// `tag`.
pub open spec fn sole_match(keys: Seq<Seq<char>>, tag: Seq<char>, i: int) -> bool {
    &&& 0 <= i < keys.len()
    &&& forall|j: int| 0 <= j < keys.len() ==> (same_key(#[trigger] keys[j], tag) <==> j == i)
}

/// The message sent back when no handler is registered under `tag`.
pub open spec fn not_found_text(tag: Seq<char>) -> Seq<char> {
    seq!['H', 'a', 'n', 'd', 'l', 'e', 'r', ' '] + debug_str(tag) + seq![
        ' ',
        'n',
        'o',
        't',
        ' ',
        'f',
        'o',
        'u',
        'n',
        'd',
    ]
}

/// What to do with an incoming message.
#[derive(Debug)]
pub enum Dispatch {
    /// No handler is registered under the message's tag; answer with this
    /// error text.
    NotFound(String),
    /// Run the handler at `index`, built from `input`.
    Invoke { index: usize, input: InputKind },
}

/// The handlers registered so far, each under a key that is not the same as
/// any other, case aside.
pub struct HandlerRegistry<F> {
    entries: Vec<(HandleKey, HandleWrapper<F>)>,
}

impl<F> HandlerRegistry<F> {
    #[verifier::type_invariant]
    closed spec fn distinct(self) -> bool {
        keys_distinct(self.keys())
    }

    /// The keys, in the order they were registered.
    pub closed spec fn keys(&self) -> Seq<Seq<char>> {
        self.entries@.map_values(|e: (HandleKey, HandleWrapper<F>)| e.0@)
    }

    /// The handlers, in the order they were registered.
    pub closed spec fn handlers(&self) -> Seq<HandleWrapper<F>> {
        self.entries@.map_values(|e: (HandleKey, HandleWrapper<F>)| e.1)
    }

    /// A registry with no handler.
    pub fn new() -> (r: HandlerRegistry<F>)
        ensures
            r.keys() == Seq::<Seq<char>>::empty(),
            r.handlers() == Seq::<HandleWrapper<F>>::empty(),
            keys_distinct(r.keys()),
    {
        let r = HandlerRegistry { entries: Vec::new() };
        assert(r.keys() =~= Seq::<Seq<char>>::empty());
        assert(r.handlers() =~= Seq::<HandleWrapper<F>>::empty());
        r
    }

    /// The number of handlers.
    pub fn len(&self) -> (n: usize)
        ensures
            n == self.keys().len(),
            n == self.handlers().len(),
            keys_distinct(self.keys()),
    {
        proof {
            use_type_invariant(self);
        }
        self.entries.len()
    }

    /// The position of the handler registered under a key that is the same
    /// as `tag`, case aside. Keys are never the same as each other, so there
    /// is at most one such position: a tag reaches a handler exactly when it
    /// is the same as that handler's key.
    pub fn find(&self, tag: &str) -> (r: Option<usize>)
        ensures
            keys_distinct(self.keys()),
            match r {
                Some(i) => first_match(self.keys(), tag@) == Some(i as int) && sole_match(
                    self.keys(),
                    tag@,
                    i as int,
                ),
                None => first_match(self.keys(), tag@) is None && fresh_key(self.keys(), tag@),
            },
    {
        proof {
            use_type_invariant(self);
        }
        let ghost keys = self.keys();
        let n = self.entries.len();
        let mut i: usize = 0;
        while i < n
            invariant
                i <= n == self.entries@.len(),
                keys == self.keys(),
                keys.len() == n,
                keys_distinct(keys),
                first_match(keys.take(i as int), tag@) is None,
                fresh_key(keys.take(i as int), tag@),
            decreases n - i,
        {
            assert(keys.take(i + 1).drop_last() =~= keys.take(i as int));
            assert(keys[i as int] == self.entries@[i as int].0@);
            if same_ignoring_case(self.entries[i].0.as_str(), tag) {
                proof {
                    lemma_first_match_prefix(keys, tag@, i as int);
                    assert forall|j: int| 0 <= j < keys.len() implies (same_key(
                        #[trigger] keys[j],
                        tag@,
                    ) <==> j == i) by {
                        if j < i {
                            assert(keys.take(i as int)[j] == keys[j]);
                        } else if j > i {
                            if same_key(keys[j], tag@) {
                                if keys[j] == tag@ {
                                    assert(same_key(keys[i as int], keys[j]));
                                } else {
                                    assert(unicase_eq(keys[j], tag@));
                                    assert(same_key(keys[j], keys[i as int]));
                                }
                            }
                        }
                    }
                }
                return Some(i);
            }
            proof {
                assert forall|j: int| 0 <= j < keys.take(i + 1).len() implies !same_key(
                    #[trigger] keys.take(i + 1)[j],
                    tag@,
                ) && !same_key(tag@, keys.take(i + 1)[j]) by {
                    if j < i {
                        assert(keys.take(i + 1)[j] == keys.take(i as int)[j]);
                    }
                }
            }
            i = i + 1;
        }
        assert(keys.take(n as int) =~= keys);
        None
    }

    /// The handler at position `i`.
    pub fn get(&self, i: usize) -> (w: &HandleWrapper<F>)
        requires
            i < self.handlers().len(),
        ensures
            *w == self.handlers()[i as int],
    {
        &self.entries[i].1
    }

    /// The key at position `i`.
    pub fn key(&self, i: usize) -> (k: &HandleKey)
        requires
            i < self.keys().len(),
        ensures
            k@ == self.keys()[i as int],
    {
        &self.entries[i].0
    }

    /// Registers `wrapper` under `key`, which is not the same as any key
    /// already there.
    pub fn register(&mut self, key: HandleKey, wrapper: HandleWrapper<F>)
        requires
            fresh_key(old(self).keys(), key@),
        ensures
            final(self).keys() == old(self).keys().push(key@),
            final(self).handlers() == old(self).handlers().push(wrapper),
            keys_distinct(final(self).keys()),
    {
        proof {
            use_type_invariant(&*self);
        }
        let ghost k = key@;
        let ghost w = wrapper;
        let ghost old_keys = self.keys();
        let mut entries = Vec::new();
        std::mem::swap(&mut entries, &mut self.entries);
        entries.push((key, wrapper));
        let ghost new_keys = entries@.map_values(|e: (HandleKey, HandleWrapper<F>)| e.0@);
        proof {
            assert(new_keys =~= old_keys.push(k));
            assert forall|i: int, j: int|
                0 <= i < new_keys.len() && 0 <= j < new_keys.len() && i != j implies !same_key(
                #[trigger] new_keys[i],
                #[trigger] new_keys[j],
            ) by {
                if i < old_keys.len() && j < old_keys.len() {
                    assert(new_keys[i] == old_keys[i] && new_keys[j] == old_keys[j]);
                } else if i < old_keys.len() {
                    assert(new_keys[i] == old_keys[i]);
                } else {
                    assert(new_keys[j] == old_keys[j]);
                }
            }
        }
        self.entries = entries;
        assert(self.keys() =~= old(self).keys().push(k));
        assert(self.handlers() =~= old(self).handlers().push(w));
    }

    /// Registers `wrapper` under `key` unless a key that is the same, case
    /// aside, is already there; answers whether it did. When it did not,
    /// nothing changes.
    pub fn try_register(&mut self, key: HandleKey, wrapper: HandleWrapper<F>) -> (done: bool)
        ensures
            done == (forall|i: int|
                0 <= i < old(self).keys().len() ==> !same_key(#[trigger] old(self).keys()[i], key@)),
            done ==> final(self).keys() == old(self).keys().push(key@) && final(self).handlers()
                == old(self).handlers().push(wrapper),
            !done ==> final(self).keys() == old(self).keys() && final(self).handlers() == old(
                self,
            ).handlers(),
            keys_distinct(final(self).keys()),
    {
        let found = self.find(key.as_str());
        proof {
            lemma_first_match(self.keys(), key@);
        }
        match found {
            Some(_) => false,
            None => {
                self.register(key, wrapper);
                true
            },
        }
    }

    /// What to do with a message tagged `tag` whose value has shape `shape`:
    /// run the one handler whose key is the same as `tag` (case aside), built
    /// from the input its abilities call for, or answer that there is none.
    pub fn dispatch(&self, tag: &str, shape: ValueShape) -> (d: Dispatch)
        ensures
            match first_match(self.keys(), tag@) {
                Some(i) => d == (Dispatch::Invoke {
                    index: i as usize,
                    input: chosen_input(
                        self.handlers()[i].can_handle_default,
                        self.handlers()[i].can_handle_string,
                        self.handlers()[i].can_handle_f64,
                        shape,
                    ),
                }),
                None => d matches Dispatch::NotFound(text) && text@ == not_found_text(tag@),
            },
            match d {
                Dispatch::Invoke { index, .. } => sole_match(self.keys(), tag@, index as int),
                Dispatch::NotFound(_) => forall|j: int|
                    0 <= j < self.keys().len() ==> !same_key(#[trigger] self.keys()[j], tag@),
            },
    {
        proof {
            lemma_first_match(self.keys(), tag@);
        }
        match self.find(tag) {
            Some(index) => {
                let input = self.get(index).input_kind(shape);
                Dispatch::Invoke { index, input }
            },
            None => {
                let mut text = String::new();
                text.append("Handler ");
                text.append(debug_quoted(tag).as_str());
                text.append(" not found");
                proof {
                    reveal_strlit("Handler ");
                    reveal_strlit(" not found");
                }
                assert(text@ =~= not_found_text(tag@));
                Dispatch::NotFound(text)
            },
        }
    }
}

/// The first match in a prefix that ends at a match is that match, and it is
/// also the first match in the whole sequence.
proof fn lemma_first_match_prefix(keys: Seq<Seq<char>>, tag: Seq<char>, i: int)
    requires
        0 <= i < keys.len(),
        first_match(keys.take(i), tag) is None,
        same_key(keys[i], tag),
    ensures
        first_match(keys, tag) == Some(i),
{
    lemma_first_match(keys.take(i), tag);
    lemma_first_match(keys, tag);
    match first_match(keys, tag) {
        Some(k) => {
            if k < i {
                assert(keys.take(i)[k] == keys[k]);
            } else if k > i {
            }
        },
        None => {},
    }
}


/// Read after write: once `key` is registered, looking up `key` itself finds
/// the new entry (no earlier key was the same as it, or it would have been
/// refused).
pub proof fn lemma_find_after_register(keys: Seq<Seq<char>>, key: Seq<char>)
    requires
        forall|i: int| 0 <= i < keys.len() ==> !same_key(#[trigger] keys[i], key),
    ensures
        first_match(keys.push(key), key) == Some(keys.len() as int),
{
    lemma_first_match(keys, key);
    assert(keys.push(key).drop_last() =~= keys);
}

/// Registering never changes what an earlier lookup found: a tag that
/// matched a key keeps matching that key.
pub proof fn lemma_find_stable_under_register(keys: Seq<Seq<char>>, key: Seq<char>, tag: Seq<char>)
    requires
        first_match(keys, tag) is Some,
    ensures
        first_match(keys.push(key), tag) == first_match(keys, tag),
{
    assert(keys.push(key).drop_last() =~= keys);
}


/// A message without a value is built as the default by a handler that can
/// do without input, whatever else that handler can take; and a handler is
/// built as the default only then.
pub proof fn lemma_default_input(
    can_default: bool,
    can_string: bool,
    can_f64: bool,
    shape: ValueShape,
)
    ensures
        shape == ValueShape::Null && can_default ==> chosen_input(
            can_default,
            can_string,
            can_f64,
            shape,
        ) == InputKind::Default,
        chosen_input(can_default, can_string, can_f64, shape) == InputKind::Default ==> shape
            == ValueShape::Null && can_default,
{
}

/// A float goes, as a float, to a handler that can be built from one,
/// whatever else that handler can take; and only a float to such a handler
/// is passed as a float.
pub proof fn lemma_f64_input(can_default: bool, can_string: bool, can_f64: bool, shape: ValueShape)
    ensures
        shape == ValueShape::F64 && can_f64 ==> chosen_input(
            can_default,
            can_string,
            can_f64,
            shape,
        ) == InputKind::F64,
        chosen_input(can_default, can_string, can_f64, shape) == InputKind::F64 ==> shape
            == ValueShape::F64 && can_f64,
{
}

/// A string goes, as a string, to a handler that can be built from one,
/// whatever else that handler can take; and only a string to such a handler
/// is passed as a string.
pub proof fn lemma_string_input(
    can_default: bool,
    can_string: bool,
    can_f64: bool,
    shape: ValueShape,
)
    ensures
        shape == ValueShape::String && can_string ==> chosen_input(
            can_default,
            can_string,
            can_f64,
            shape,
        ) == InputKind::String,
        chosen_input(can_default, can_string, can_f64, shape) == InputKind::String ==> shape
            == ValueShape::String && can_string,
{
}

/// Everything that none of the handler's plain abilities covers is
/// deserialised from JSON, and nothing else is.
pub proof fn lemma_json_input(can_default: bool, can_string: bool, can_f64: bool, shape: ValueShape)
    ensures
        (chosen_input(can_default, can_string, can_f64, shape) == InputKind::Json) <==> !(shape
            == ValueShape::Null && can_default) && !(shape == ValueShape::F64 && can_f64) && !(
        shape == ValueShape::String && can_string),
{
}

} // verus!
