//! Where the disk cache keeps the payload of a track: one JSON file for each
//! track id.

use vstd::prelude::*;

use crate::text;

verus! {

/// A path with a relative path behind it, with a slash between them unless the
/// path is empty or ends in one.
pub open spec fn joined_path(dir: Seq<char>, name: Seq<char>) -> Seq<char> {
    if dir.len() == 0 || dir.last() == '/' {
        dir + name
    } else {
        dir.push('/') + name
    }
}

/// Joins a path and a relative path.
pub fn join_path(dir: &str, name: &str) -> (r: String)
    ensures
        r@ == joined_path(dir@, name@),
{
    let chars: Vec<char> = text::chars_of(dir);
    let mut out: String = dir.to_owned();
    if chars.len() > 0 && chars[chars.len() - 1] != '/' {
        out.push('/');
    }
    out.append(name);
    out
}

/// Whether a character may stand in the name of a cache file: an ASCII letter
/// or digit, `_` or `-`.
pub open spec fn is_allowed(c: char) -> bool {
    ||| 'a' <= c && c <= 'z'
    ||| 'A' <= c && c <= 'Z'
    ||| '0' <= c && c <= '9'
    ||| c == '_'
    ||| c == '-'
}

/// The allowed characters of a track id, in order.
pub open spec fn safe(id: Seq<char>) -> Seq<char>
    decreases id.len(),
{
    if id.len() == 0 {
        seq![]
    } else if is_allowed(id.last()) {
        safe(id.drop_last()).push(id.last())
    } else {
        safe(id.drop_last())
    }
}

/// The name of the cache file of a track.
pub open spec fn file_name(id: Seq<char>) -> Seq<char> {
    safe(id) + ".json"@
}

/// The disk cache.
#[derive(Debug)]
pub struct Cache {
    dir: String,
}

impl Cache {
    /// The directory of the cache.
    pub closed spec fn root(&self) -> Seq<char> {
        self.dir@
    }

    /// The cache in the given directory.
    pub fn new(dir: String) -> (r: Cache)
        ensures
            r.root() == dir@,
    {
        Cache { dir }
    }

    /// The directory of the cache.
    pub fn dir(&self) -> (r: &str)
        ensures
            r@ == self.root(),
    {
        self.dir.as_str()
    }

    /// The path of the cache file of a track.
    ///
    /// The track id comes from the client; its characters are allowlisted so that it cannot
    /// escape the cache directory.
    pub fn path(&self, id: &str) -> (r: String)
        ensures
            r@ == joined_path(self.root(), file_name(id@)),
    {
        let chars: Vec<char> = text::chars_of(id);
        let mut name: String = String::new();
        let mut i: usize = 0;
        while i < chars.len()
            invariant
                i <= chars@.len(),
                name@ == safe(chars@.take(i as int)),
            decreases chars@.len() - i,
        {
            let c: char = chars[i];
            assert(chars@.take(i + 1).drop_last() == chars@.take(i as int));
            if ('a' <= c && c <= 'z') || ('A' <= c && c <= 'Z') || ('0' <= c && c <= '9') || c
                == '_' || c == '-' {
                name.push(c);
            }
            i = i + 1;
        }
        assert(chars@.take(i as int) == id@);
        name.append(".json");
        join_path(self.dir.as_str(), name.as_str())
    }
}

/// Only allowed characters are left of a track id.
proof fn lemma_safe_is_allowed(id: Seq<char>)
    ensures
        forall|i: int| 0 <= i < safe(id).len() ==> is_allowed(#[trigger] safe(id)[i]),
    decreases id.len(),
{
    if id.len() > 0 {
        let before = safe(id.drop_last());
        lemma_safe_is_allowed(id.drop_last());
        assert forall|i: int| 0 <= i < safe(id).len() implies is_allowed(#[trigger] safe(id)[i]) by {
            if i < before.len() {
                assert(safe(id)[i] == before[i]);
            }
        }
    }
}

/// A track id of allowed characters is left as it is.
pub proof fn law_allowed_id_is_kept(id: Seq<char>)
    requires
        forall|i: int| 0 <= i < id.len() ==> is_allowed(#[trigger] id[i]),
    ensures
        safe(id) == id,
    decreases id.len(),
{
    if id.len() > 0 {
        assert forall|i: int| 0 <= i < id.drop_last().len() implies is_allowed(
            #[trigger] id.drop_last()[i],
        ) by {
            assert(id.drop_last()[i] == id[i]);
        }
        law_allowed_id_is_kept(id.drop_last());
        assert(is_allowed(id[id.len() - 1]));
        assert(id.drop_last().push(id.last()) == id);
    } else {
        assert(safe(id) == id);
    }
}

/// Whatever the track id, its cache file lies in the cache directory itself:
/// the name of the file has no slash in it, ends in `.json`, and so is none of
/// the names by which a path leads elsewhere.
pub proof fn law_file_stays_in_dir(id: Seq<char>)
    ensures
        forall|i: int| 0 <= i < file_name(id).len() ==> file_name(id)[i] != '/',
        file_name(id).len() >= 5,
        file_name(id).skip(file_name(id).len() - 5) == ".json"@,
{
    reveal_strlit(".json");
    lemma_safe_is_allowed(id);
    let name = file_name(id);
    assert forall|i: int| 0 <= i < name.len() implies name[i] != '/' by {
        if i < safe(id).len() {
            assert(is_allowed(safe(id)[i]));
        } else {
            assert(name[i] == ".json"@[i - safe(id).len()]);
        }
    }
    assert(name.skip(name.len() - 5) == ".json"@);
}

/// Two tracks share a cache file exactly if the allowed characters of their ids
/// are the same.
pub proof fn law_tracks_have_their_own_file(dir: Seq<char>, a: Seq<char>, b: Seq<char>)
    ensures
        joined_path(dir, file_name(a)) == joined_path(dir, file_name(b)) <==> safe(a) == safe(b),
{
    let x = safe(a);
    let y = safe(b);
    let base = joined_path(dir, Seq::empty());
    let n = base.len() as int;
    let p = joined_path(dir, file_name(a));
    let q = joined_path(dir, file_name(b));
    assert(p == base + x + ".json"@);
    assert(q == base + y + ".json"@);
    if p == q {
        assert(x.len() == y.len());
        assert(p.subrange(n, n + x.len()) == x);
        assert(q.subrange(n, n + y.len()) == y);
    }
}

/// The name of a cache file keeps the letters, digits, `_` and `-` of the track
/// id, and drops every other character without touching the rest.
pub proof fn law_name_keeps_each_allowed_character(a: Seq<char>, b: Seq<char>, c: char)
    ensures
        safe(a + b) == safe(a) + safe(b),
        safe(seq![c]) == if 'a' <= c <= 'z' || 'A' <= c <= 'Z' || '0' <= c <= '9' || c == '_' || c
            == '-' {
            seq![c]
        } else {
            Seq::<char>::empty()
        },
        file_name(a) == safe(a) + ".json"@,
    decreases b.len(),
{
    assert(safe(seq![c].drop_last()) == Seq::<char>::empty());
    if b.len() > 0 {
        law_name_keeps_each_allowed_character(a, b.drop_last(), c);
        assert((a + b).drop_last() == a + b.drop_last());
    } else {
        assert(a + b == a);
    }
}

/// A joined path starts with the directory and ends with the name. Between them
/// stands one slash, be it the directory's own; an empty directory has none.
pub proof fn law_path_has_one_slash_between(dir: Seq<char>, name: Seq<char>)
    ensures
        joined_path(Seq::empty(), name) == name,
        joined_path(dir.push('/'), name) == dir + "/"@ + name,
        dir.len() > 0 && dir.last() != '/' ==> joined_path(dir, name) == dir + "/"@ + name,
{
    reveal_strlit("/");
    assert(dir.push('/') == dir + "/"@);
    assert(Seq::<char>::empty() + name == name);
}

} // verus!
