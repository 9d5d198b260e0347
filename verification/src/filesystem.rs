//! The filesystem realization of the datastore, as far as it is
//! computation: path construction and the mapping between relative file
//! paths and dotted keys. Data for key `a.b.c` in scope `S` lives at
//! `<base>/<S>/a/b/c`; metadata `m` about it lives beside it, at
//! `<base>/<S>/a/b/c.m`. The reads, writes and directory walks themselves
//! are left to the embedding program.

use vstd::prelude::*;
use vstd::string::{StrSliceExecFns, StringExecFns};
use crate::Committed;
use crate::error::Error;
use crate::key::{Key, KeyType, valid_data_key, valid_meta_key};
use crate::strings::{chars_of, chars_to_string, str_starts_with};

verus! {

/// The dotted key text as a path suffix: dots become separators.
pub open spec fn slashed(k: Seq<char>) -> Seq<char> {
    k.map_values(|c: char| if c == '.' { '/' } else { c })
}

/// A relative file path as a dotted key text: separators become dots.
pub open spec fn dotted(p: Seq<char>) -> Seq<char> {
    p.map_values(|c: char| if c == '/' { '.' } else { c })
}

/// The file path of a data key below a scope root.
pub open spec fn data_path_spec(scope_root: Seq<char>, k: Seq<char>) -> Seq<char> {
    scope_root + seq!['/'] + slashed(k)
}

/// The base name of a relative path: what follows the last separator.
pub open spec fn basename_spec(p: Seq<char>) -> Seq<char>
    decreases p.len(),
{
    if p.len() == 0 {
        Seq::empty()
    } else if p.last() == '/' {
        Seq::empty()
    } else {
        basename_spec(p.drop_last()).push(p.last())
    }
}

proof fn lemma_basename(p: Seq<char>, s: int)
    requires
        0 <= s <= p.len(),
        forall|j: int| s <= j < p.len() ==> p[j] != '/',
        s > 0 ==> p[s - 1] == '/',
    ensures
        basename_spec(p) == p.skip(s),
    decreases p.len(),
{
    if p.len() == 0 {
        assert(p.skip(s) =~= Seq::<char>::empty());
    } else if s == p.len() {
        assert(p.last() == '/');
        assert(p.skip(s) =~= Seq::<char>::empty());
    } else {
        assert(p.last() != '/');
        lemma_basename(p.drop_last(), s);
        assert(p.skip(s) =~= p.drop_last().skip(s).push(p.last()));
    }
}

/// A filesystem-backed store's path layout, rooted at a base directory
/// holding the `live` and `pending` scope trees side by side.
#[derive(Debug)]
pub struct FilesystemDataStore {
    live_path: String,
    pending_path: String,
}

impl FilesystemDataStore {
    pub closed spec fn live_root(&self) -> Seq<char> {
        self.live_path@
    }

    pub closed spec fn pending_root(&self) -> Seq<char> {
        self.pending_path@
    }

    pub open spec fn scope_root(&self, committed: Committed) -> Seq<char> {
        match committed {
            Committed::Live => self.live_root(),
            Committed::Pending => self.pending_root(),
        }
    }

    /// A store rooted at `base_path`.
    pub fn new(base_path: &str) -> (s: FilesystemDataStore)
        ensures
            s.live_root() == base_path@ + "/live"@,
            s.pending_root() == base_path@ + "/pending"@,
    {
        FilesystemDataStore {
            live_path: base_path.to_owned().concat("/live"),
            pending_path: base_path.to_owned().concat("/pending"),
        }
    }

    /// The root directory of a scope.
    pub fn base_path(&self, committed: Committed) -> (r: &String)
        ensures
            r@ == self.scope_root(committed),
    {
        match committed {
            Committed::Pending => &self.pending_path,
            Committed::Live => &self.live_path,
        }
    }

    /// The file path a data key is stored at in a scope: the scope root,
    /// then the key's segments as directories. The result always lies
    /// strictly below the scope root — key validation leaves no way to
    /// traverse out of it — and the check is kept as defence in depth.
    #[verifier::loop_isolation(false)]
    pub fn data_path(&self, key: &Key, committed: Committed) -> (r: Result<String, Error>)
        requires
            key.wf(),
            key.kind_spec() == KeyType::Data,
        ensures
            r is Ok,
            r matches Ok(p) ==> p@ == data_path_spec(self.scope_root(committed), key@),
    {
        let base = self.base_path(committed);
        let kcs = chars_of(key.as_str());
        let mut path_cs = chars_of(base.as_str());
        path_cs.push('/');
        let mut i: usize = 0;
        while i < kcs.len()
            invariant
                i <= kcs@.len(),
                kcs@ == key@,
                path_cs@ == base@ + seq!['/'] + slashed(key@.subrange(0, i as int)),
            decreases kcs@.len() - i,
        {
            let c = kcs[i];
            if c == '.' {
                path_cs.push('/');
            } else {
                path_cs.push(c);
            }
            proof {
                assert(path_cs@ =~= base@ + seq!['/'] + slashed(
                    key@.subrange(0, i as int + 1),
                ));
            }
            i = i + 1;
        }
        proof {
            assert(key@.subrange(0, key@.len() as int) =~= key@);
        }
        let path = chars_to_string(&path_cs);
        proof {
            assert(path@.subrange(0, base@.len() as int) =~= base@);
            assert(base@.is_prefix_of(path@));
            assert(path@.len() > base@.len() + 1);
        }
        if !(str_starts_with(path.as_str(), base.as_str()) && path.as_str().unicode_len()
            > base.as_str().unicode_len()) {
            return Err(Error::PathTraversal { name: key.to_text() });
        }
        Ok(path)
    }

    /// The file path a metadata key about a data key is stored at: the data
    /// key's path, with a dot and the metadata key appended to the file
    /// name.
    pub fn metadata_path(&self, metadata_key: &Key, data_key: &Key, committed: Committed) -> (r:
        Result<String, Error>)
        requires
            metadata_key.wf(),
            metadata_key.kind_spec() == KeyType::Meta,
            data_key.wf(),
            data_key.kind_spec() == KeyType::Data,
        ensures
            r is Ok,
            r matches Ok(p) ==> p@ == data_path_spec(self.scope_root(committed), data_key@)
                + seq!['.'] + metadata_key@,
    {
        let dp = match self.data_path(data_key, committed) {
            Ok(p) => p,
            Err(e) => {
                return Err(e);
            },
        };
        proof {
            reveal_strlit(".");
            assert("."@ =~= seq!['.']);
        }
        Ok(dp.concat(".").concat(metadata_key.as_str()))
    }
}


/// Segments joined by a separator.
pub open spec fn join_sep(segs: Seq<Seq<char>>, sep: char) -> Seq<char>
    decreases segs.len(),
{
    if segs.len() == 0 {
        Seq::empty()
    } else if segs.len() == 1 {
        segs[0]
    } else {
        join_sep(segs.drop_last(), sep) + seq![sep] + segs.last()
    }
}

proof fn lemma_slashed_join(k: Seq<char>)
    ensures
        join_sep(crate::key::split_dots(k), '/') == slashed(k),
    decreases k.len(),
{
    if k.len() == 0 {
        assert(slashed(k) =~= Seq::<char>::empty());
    } else {
        lemma_slashed_join(k.drop_last());
        crate::key::lemma_split_dots_nonempty(k.drop_last());
        let s = crate::key::split_dots(k.drop_last());
        let s2 = crate::key::split_dots(k);
        if k.last() == '.' {
            assert(s2 == s.push(Seq::<char>::empty()));
            assert(s2.drop_last() =~= s);
            assert(s2.len() >= 2);
            assert(join_sep(s2, '/') =~= join_sep(s, '/').push('/'));
            assert(slashed(k) =~= slashed(k.drop_last()).push('/'));
        } else {
            if s.len() == 1 {
                assert(s2.len() == 1);
                assert(s2[0] == s[0].push(k.last()));
                assert(join_sep(s2, '/') =~= join_sep(s, '/').push(k.last()));
                assert(slashed(k) =~= slashed(k.drop_last()).push(k.last()));
            } else {
                assert(s2.drop_last() =~= s.drop_last());
                assert(s2.last() == s.last().push(k.last()));
                assert(s2.len() == s.len());
                assert(join_sep(s2, '/') =~= join_sep(s, '/').push(k.last()));
                assert(slashed(k) =~= slashed(k.drop_last()).push(k.last()));
            }
        }
    }
}

/// Path mapping: the file path of a data key is the scope root, a
/// separator, and the key's segments joined by the separator; and it lies
/// strictly below the scope root.
pub proof fn lemma_data_path_segments(root: Seq<char>, k: Seq<char>)
    requires
        valid_data_key(k),
    ensures
        data_path_spec(root, k) == root + seq!['/'] + join_sep(crate::key::split_dots(k), '/'),
        (root + seq!['/']).is_prefix_of(data_path_spec(root, k)),
        data_path_spec(root, k) != root + seq!['/'],
{
    lemma_slashed_join(k);
    let p = data_path_spec(root, k);
    assert(p.subrange(0, (root + seq!['/']).len() as int) =~= root + seq!['/']);
    assert(p.len() > (root + seq!['/']).len());
}

/// The data key a relative file path stores, if it looks like one. The base
/// name on its own must be a valid single-segment key — which is what rules
/// the `name.meta` metadata files out, since their base names contain a dot
/// — and the whole path, separators turned into dots, must be a valid data
/// key. Directories and foreign files yield nothing.
#[verifier::loop_isolation(false)]
pub fn key_for_relative_path(rel: &str) -> (r: Option<Key>)
    ensures
        match r {
            Some(k) => k@ == dotted(rel@) && k.wf() && k.kind_spec() == KeyType::Data
                && valid_meta_key(basename_spec(rel@)),
            None => !(valid_meta_key(basename_spec(rel@)) && valid_data_key(dotted(rel@))),
        },
{
    let cs = chars_of(rel);
    let n: usize = cs.len();
    let mut s: usize = n;
    while s > 0 && cs[s - 1] != '/'
        invariant
            s <= n,
            n == rel@.len(),
            cs@ == rel@,
            forall|j: int| s <= j < n ==> rel@[j] != '/',
        decreases s,
    {
        s = s - 1;
    }
    proof {
        lemma_basename(rel@, s as int);
    }
    let mut base_cs: Vec<char> = Vec::new();
    let mut i: usize = s;
    while i < n
        invariant
            s <= i <= n,
            n == rel@.len(),
            cs@ == rel@,
            base_cs@ == rel@.subrange(s as int, i as int),
        decreases n - i,
    {
        base_cs.push(cs[i]);
        proof {
            assert(base_cs@ =~= rel@.subrange(s as int, i as int + 1));
        }
        i = i + 1;
    }
    proof {
        assert(base_cs@ =~= rel@.skip(s as int));
    }
    let base_name = chars_to_string(&base_cs);
    match Key::new(KeyType::Meta, base_name.as_str()) {
        Ok(_) => {},
        Err(_) => {
            return None;
        },
    }
    let mut dot_cs: Vec<char> = Vec::new();
    let mut i: usize = 0;
    while i < n
        invariant
            i <= n,
            n == rel@.len(),
            cs@ == rel@,
            dot_cs@ == dotted(rel@.subrange(0, i as int)),
        decreases n - i,
    {
        let c = cs[i];
        if c == '/' {
            dot_cs.push('.');
        } else {
            dot_cs.push(c);
        }
        proof {
            assert(dot_cs@ =~= dotted(rel@.subrange(0, i as int + 1)));
        }
        i = i + 1;
    }
    proof {
        assert(rel@.subrange(0, n as int) =~= rel@);
    }
    let dotted_name = chars_to_string(&dot_cs);
    match Key::new(KeyType::Data, dotted_name.as_str()) {
        Ok(k) => Some(k),
        Err(_) => None,
    }
}

} // verus!
