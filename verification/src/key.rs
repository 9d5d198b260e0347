//! Validated, dotted key identifiers.
//!
//! A key is an ordered sequence of non-empty segments separated by `.`, each
//! segment drawn from `[A-Za-z0-9_-]`. A `Data` key may have any number of
//! segments; a `Meta` key must be a single segment (no dots).

use vstd::prelude::*;
use crate::error::{Error, InvalidKeyReason};
use crate::strings::{chars_of, str_starts_with};

verus! {

/// Upper bound on the length of a key text, in characters.
pub const MAX_KEY_LEN: usize = 4096;

#[derive(Clone, Copy, Debug, PartialEq, Eq, Structural)]
pub enum KeyType {
    Data,
    Meta,
}

/// The accepted segment characters: ASCII letters, digits, `_` and `-`.
pub open spec fn is_key_char(c: char) -> bool {
    ||| ('a' <= c && c <= 'z')
    ||| ('A' <= c && c <= 'Z')
    ||| ('0' <= c && c <= '9')
    ||| c == '_'
    ||| c == '-'
}

/// A valid single-segment (metadata) key text.
pub open spec fn valid_meta_key(s: Seq<char>) -> bool {
    &&& 1 <= s.len() <= MAX_KEY_LEN as int
    &&& forall|i: int| 0 <= i < s.len() ==> is_key_char(#[trigger] s[i])
}

/// A valid dotted (data) key text: non-empty segments of accepted
/// characters, separated by single dots.
pub open spec fn valid_data_key(s: Seq<char>) -> bool {
    &&& 1 <= s.len() <= MAX_KEY_LEN as int
    &&& forall|i: int| 0 <= i < s.len() ==> is_key_char(#[trigger] s[i]) || s[i] == '.'
    &&& s[0] != '.'
    &&& s[s.len() - 1] != '.'
    &&& forall|i: int| 0 <= i < s.len() - 1 ==> !(#[trigger] s[i] == '.' && s[i + 1] == '.')
}

pub open spec fn valid_key(s: Seq<char>, kind: KeyType) -> bool {
    match kind {
        KeyType::Data => valid_data_key(s),
        KeyType::Meta => valid_meta_key(s),
    }
}

/// The reason reported for an invalid key text, in checking order: emptiness
/// and length first, then segment arity for metadata keys, then the
/// character class, and finally empty segments (leading, trailing or doubled
/// dots).
pub open spec fn key_reject_reason(s: Seq<char>, kind: KeyType) -> InvalidKeyReason {
    if s.len() == 0 {
        InvalidKeyReason::Empty
    } else if s.len() > MAX_KEY_LEN as int {
        InvalidKeyReason::TooLong
    } else if kind == KeyType::Meta && (exists|i: int| 0 <= i < s.len() && s[i] == '.') {
        InvalidKeyReason::WrongArity
    } else if exists|i: int| 0 <= i < s.len()
        && !(is_key_char(#[trigger] s[i]) || (kind == KeyType::Data && s[i] == '.')) {
        InvalidKeyReason::BadCharacter
    } else {
        InvalidKeyReason::Empty
    }
}

/// A validated key. The view of a key is its dotted text.
#[derive(Debug)]
pub struct Key {
    name: String,
    kind: KeyType,
}

impl View for Key {
    type V = Seq<char>;

    closed spec fn view(&self) -> Seq<char> {
        self.name@
    }
}

impl Key {
    pub closed spec fn kind_spec(&self) -> KeyType {
        self.kind
    }

    /// Well-formedness: the text is a valid key of the key's kind.
    pub open spec fn wf(&self) -> bool {
        valid_key(self@, self.kind_spec())
    }

    /// Validates `text` and makes a key of the given kind from it.
    #[verifier::loop_isolation(false)]
    pub fn new(kind: KeyType, text: &str) -> (r: Result<Key, Error>)
        ensures
            r is Ok <==> valid_key(text@, kind),
            r matches Ok(k) ==> k@ == text@ && k.kind_spec() == kind && k.wf(),
            r matches Err(e) ==> (e matches Error::InvalidKey { name, reason }
                && name@ == text@ && reason == key_reject_reason(text@, kind)),
    {
        let cs = chars_of(text);
        let n: usize = cs.len();
        if n == 0 {
            return Err(Error::InvalidKey {
                name: text.to_owned(),
                reason: InvalidKeyReason::Empty,
            });
        }
        if n > MAX_KEY_LEN {
            return Err(Error::InvalidKey {
                name: text.to_owned(),
                reason: InvalidKeyReason::TooLong,
            });
        }
        if kind == KeyType::Meta {
            let mut i: usize = 0;
            while i < n
                invariant
                    i <= n,
                    n == text@.len(),
                    cs@ == text@,
                    forall|j: int| 0 <= j < i ==> text@[j] != '.',
                decreases n - i,
            {
                if cs[i] == '.' {
                    proof {
                        assert(text@[i as int] == '.');
                        assert(!is_key_char(text@[i as int]));
                        assert(!valid_meta_key(text@));
                    }
                    return Err(Error::InvalidKey {
                        name: text.to_owned(),
                        reason: InvalidKeyReason::WrongArity,
                    });
                }
                i = i + 1;
            }
        }
        let data_kind: bool = kind == KeyType::Data;
        let mut i: usize = 0;
        while i < n
            invariant
                i <= n,
                n == text@.len(),
                cs@ == text@,
                data_kind == (kind == KeyType::Data),
                kind == KeyType::Meta ==> forall|j: int| 0 <= j < n ==> text@[j] != '.',
                forall|j: int| 0 <= j < i ==> is_key_char(#[trigger] text@[j])
                    || (kind == KeyType::Data && text@[j] == '.'),
            decreases n - i,
        {
            let c = cs[i];
            if !(is_key_char_exec(c) || (data_kind && c == '.')) {
                proof {
                    assert(!(is_key_char(text@[i as int])
                        || (kind == KeyType::Data && text@[i as int] == '.')));
                    assert(key_reject_reason(text@, kind) == InvalidKeyReason::BadCharacter);
                    assert(!valid_key(text@, kind));
                }
                return Err(Error::InvalidKey {
                    name: text.to_owned(),
                    reason: InvalidKeyReason::BadCharacter,
                });
            }
            i = i + 1;
        }
        if data_kind {
            if cs[0] == '.' || cs[n - 1] == '.' {
                proof {
                    assert(!valid_data_key(text@));
                    assert(key_reject_reason(text@, kind) == InvalidKeyReason::Empty);
                }
                return Err(Error::InvalidKey {
                    name: text.to_owned(),
                    reason: InvalidKeyReason::Empty,
                });
            }
            let mut i: usize = 0;
            while i + 1 < n
                invariant
                    i < n,
                    n == text@.len(),
                    cs@ == text@,
                    forall|j: int| 0 <= j < i ==> !(#[trigger] text@[j] == '.'
                        && text@[j + 1] == '.'),
                decreases n - i,
            {
                if cs[i] == '.' && cs[i + 1] == '.' {
                    proof {
                        assert(text@[i as int] == '.' && text@[i as int + 1] == '.');
                        assert(!valid_data_key(text@));
                        assert(key_reject_reason(text@, kind) == InvalidKeyReason::Empty);
                    }
                    return Err(Error::InvalidKey {
                        name: text.to_owned(),
                        reason: InvalidKeyReason::Empty,
                    });
                }
                i = i + 1;
            }
        }
        Ok(Key { name: text.to_owned(), kind })
    }

    /// The dotted text of the key.
    pub fn as_str(&self) -> (r: &str)
        ensures
            r@ == self@,
    {
        self.name.as_str()
    }

    /// The dotted text of the key, as an owned string.
    pub fn to_text(&self) -> (r: String)
        ensures
            r@ == self@,
    {
        self.name.clone()
    }

    /// Textual prefix test on the dotted form. Note that prefix `"settings"`
    /// matches `"settingsfoo"` as well as `"settings.host"`; callers that
    /// need segment-boundary semantics supply the trailing dot themselves.
    pub fn starts_with(&self, prefix: &str) -> (r: bool)
        ensures
            r == prefix@.is_prefix_of(self@),
    {
        str_starts_with(self.name.as_str(), prefix)
    }

    /// An identical key.
    pub fn dup(&self) -> (r: Key)
        ensures
            r == *self,
    {
        Key { name: self.name.clone(), kind: self.kind }
    }


    /// The key's segments, in order.
    #[verifier::loop_isolation(false)]
    pub fn segments(&self) -> (r: Vec<String>)
        ensures
            r.deep_view() == split_dots(self@),
    {
        let cs = crate::strings::chars_of(self.name.as_str());
        let n: usize = cs.len();
        let mut done: Vec<String> = Vec::new();
        let mut cur: Vec<char> = Vec::new();
        let mut i: usize = 0;
        while i < n
            invariant
                i <= n,
                n == self@.len(),
                cs@ == self@,
                split_dots(self@.take(i as int)) == done.deep_view().push(cur@),
            decreases n - i,
        {
            let ghost pre = self@.take(i as int);
            proof {
                assert(self@.take(i as int + 1).drop_last() =~= pre);
                assert(self@.take(i as int + 1).last() == self@[i as int]);
            }
            let c = cs[i];
            if c == '.' {
                done.push(crate::strings::chars_to_string(&cur));
                cur = Vec::new();
                proof {
                    assert(split_dots(self@.take(i as int + 1)) =~= done.deep_view().push(cur@));
                }
            } else {
                cur.push(c);
                proof {
                    let s = split_dots(pre);
                    assert(s.len() == done.deep_view().push(s.last()).len());
                    assert(split_dots(self@.take(i as int + 1)) =~= done.deep_view().push(cur@));
                }
            }
            i = i + 1;
        }
        done.push(crate::strings::chars_to_string(&cur));
        proof {
            assert(self@.take(n as int) =~= self@);
            assert(done.deep_view() =~= split_dots(self@));
        }
        done
    }

    /// The key's kind.
    pub fn kind(&self) -> (r: KeyType)
        ensures
            r == self.kind_spec(),
    {
        self.kind
    }
}


/// The segments of a dotted text: the (possibly empty) pieces between the
/// dots, in order.
pub open spec fn split_dots(k: Seq<char>) -> Seq<Seq<char>>
    decreases k.len(),
{
    if k.len() == 0 {
        seq![Seq::<char>::empty()]
    } else if k.last() == '.' {
        split_dots(k.drop_last()).push(Seq::empty())
    } else {
        let s = split_dots(k.drop_last());
        s.update(s.len() - 1, s.last().push(k.last()))
    }
}

pub proof fn lemma_split_dots_nonempty(k: Seq<char>)
    ensures
        split_dots(k).len() >= 1,
    decreases k.len(),
{
    if k.len() == 0 {
    } else {
        lemma_split_dots_nonempty(k.drop_last());
    }
}

pub fn is_key_char_exec(c: char) -> (r: bool)
    ensures
        r == is_key_char(c),
{
    ('a' <= c && c <= 'z') || ('A' <= c && c <= 'Z') || ('0' <= c && c <= '9') || c == '_' || c
        == '-'
}

} // verus!
