//! Archive paths: relative, `/`-separated, with no empty, `.` or `..`
//! component and no NUL character.
use vstd::prelude::*;
use vstd::utf8::{decode_utf8, valid_utf8};

use crate::error::{Error, Result};
use crate::text::{chars_of, concat, owned};

verus! {

broadcast use vstd::seq_lib::group_seq_properties;

/// The pieces of `p` between `/` separators (one piece for a path with no `/`).
pub open spec fn split_slash(p: Seq<char>) -> Seq<Seq<char>>
    decreases p.len(),
{
    if p.len() == 0 {
        seq![Seq::<char>::empty()]
    } else {
        let rest = split_slash(p.drop_last());
        if p.last() == '/' {
            rest.push(Seq::<char>::empty())
        } else {
            rest.update(rest.len() - 1, rest.last().push(p.last()))
        }
    }
}

/// The pieces `cs` put back together with `/` between them.
pub open spec fn join_slash(cs: Seq<Seq<char>>) -> Seq<char>
    decreases cs.len(),
{
    if cs.len() <= 1 {
        if cs.len() == 0 {
            Seq::<char>::empty()
        } else {
            cs[0]
        }
    } else {
        join_slash(cs.drop_last()) + seq!['/'] + cs.last()
    }
}

/// A component of an archive path: not empty, not `.` or `..`, no NUL.
pub open spec fn valid_component(c: Seq<char>) -> bool {
    &&& c.len() > 0
    &&& c != seq!['.']
    &&& c != seq!['.', '.']
    &&& !c.contains('\0')
}

/// A valid archive path: not empty, no leading or trailing `/`, no NUL, and
/// every component valid.
pub open spec fn valid_archive_path(p: Seq<char>) -> bool {
    &&& p.len() > 0
    &&& p[0] != '/'
    &&& p.last() != '/'
    &&& !p.contains('\0')
    &&& forall|i: int| 0 <= i < split_slash(p).len() ==> valid_component(#[trigger] split_slash(p)[i])
}

/// The components of `cs` before index `k` are valid and the one at `k` is not.
pub open spec fn first_invalid_at(cs: Seq<Seq<char>>, k: int) -> bool {
    &&& 0 <= k < cs.len()
    &&& !valid_component(cs[k])
    &&& forall|j: int| 0 <= j < k ==> valid_component(#[trigger] cs[j])
}

/// What `validate_archive_path` reports about `p` when it is not valid.
pub open spec fn path_error_message(p: Seq<char>, m: Seq<char>) -> bool {
    if p.len() == 0 {
        m == "empty path"@
    } else if p[0] == '/' || p.last() == '/' || p.contains('\0') {
        m == p
    } else {
        exists|k: int| first_invalid_at(split_slash(p), k) && m == split_slash(p)[k]
    }
}

/// The key under which a lookup path is searched: one leading `/` dropped.
pub open spec fn lookup_key(p: Seq<char>) -> Seq<char> {
    if p.len() > 0 && p[0] == '/' {
        p.skip(1)
    } else {
        p
    }
}

/// The archive root, named by `""` or `"/"`.
pub open spec fn names_root(p: Seq<char>) -> bool {
    p.len() == 0 || p == seq!['/']
}

/// The position of the last `/` in `p`, or -1.
pub open spec fn last_slash(p: Seq<char>) -> int
    decreases p.len(),
{
    if p.len() == 0 {
        -1
    } else if p.last() == '/' {
        p.len() - 1
    } else {
        last_slash(p.drop_last())
    }
}

/// What precedes the last `/` of `p`; empty when there is none.
pub open spec fn parent_of(p: Seq<char>) -> Seq<char> {
    if last_slash(p) < 0 {
        Seq::<char>::empty()
    } else {
        p.take(last_slash(p))
    }
}

pub proof fn lemma_split_len(p: Seq<char>)
    ensures
        split_slash(p).len() >= 1,
    decreases p.len(),
{
    if p.len() > 0 {
        lemma_split_len(p.drop_last());
    }
}

/// The last piece is empty exactly when `p` is empty or ends with `/`.
pub proof fn lemma_split_last(p: Seq<char>)
    ensures
        split_slash(p).len() >= 1,
        (split_slash(p).last().len() == 0) <==> (p.len() == 0 || p.last() == '/'),
    decreases p.len(),
{
    lemma_split_len(p);
    if p.len() > 0 {
        lemma_split_len(p.drop_last());
    }
}

/// The first piece is empty exactly when `p` is empty or starts with `/`.
pub proof fn lemma_split_first(p: Seq<char>)
    ensures
        split_slash(p).len() >= 1,
        (split_slash(p)[0].len() == 0) <==> (p.len() == 0 || p[0] == '/'),
        p.len() > 0 && p[0] == '/' ==> split_slash(p).len() >= 2,
    decreases p.len(),
{
    lemma_split_len(p);
    if p.len() > 0 {
        let q = p.drop_last();
        lemma_split_first(q);
        lemma_split_len(q);
        if q.len() > 0 {
            assert(q[0] == p[0]);
        } else {
            assert(p.last() == p[0]);
        }
    }
}

/// Appending a piece with no `/` after a `/` appends it to the pieces.
pub proof fn lemma_split_append(p: Seq<char>, q: Seq<char>)
    requires
        !q.contains('/'),
    ensures
        split_slash(p + seq!['/'] + q) == split_slash(p).push(q),
    decreases q.len(),
{
    lemma_split_len(p);
    if q.len() == 0 {
        assert((p + seq!['/'] + q).drop_last() =~= p);
        assert(p + seq!['/'] + q =~= p.push('/'));
    } else {
        let q1 = q.drop_last();
        assert(!q1.contains('/')) by {
            if q1.contains('/') {
                let k = choose|k: int| 0 <= k < q1.len() && q1[k] == '/';
                assert(q[k] == '/');
            }
        }
        lemma_split_append(p, q1);
        let whole = p + seq!['/'] + q;
        assert(whole.drop_last() =~= p + seq!['/'] + q1);
        assert(whole.last() == q.last());
        assert(q[q.len() - 1] == q.last());
        assert(q.last() != '/');
        assert(q1.push(q.last()) =~= q);
        assert(split_slash(whole) =~= split_slash(p).push(q));
    }
}

/// Splitting what was joined gives back the pieces.
pub proof fn lemma_split_join(cs: Seq<Seq<char>>)
    requires
        cs.len() >= 1,
        forall|i: int| 0 <= i < cs.len() ==> !(#[trigger] cs[i]).contains('/'),
    ensures
        split_slash(join_slash(cs)) == cs,
    decreases cs.len(),
{
    if cs.len() == 1 {
        lemma_split_no_slash(cs[0]);
        assert(split_slash(join_slash(cs)) =~= cs);
    } else {
        let init = cs.drop_last();
        assert forall|i: int| 0 <= i < init.len() implies !(#[trigger] init[i]).contains('/') by {
            assert(init[i] == cs[i]);
        }
        lemma_split_join(init);
        assert(!cs.last().contains('/')) by {
            assert(cs[cs.len() - 1] == cs.last());
        }
        lemma_split_append(join_slash(init), cs.last());
        assert(init.push(cs.last()) =~= cs);
    }
}

/// A piece with no `/` splits into itself.
pub proof fn lemma_split_no_slash(q: Seq<char>)
    requires
        !q.contains('/'),
    ensures
        split_slash(q) == seq![q],
    decreases q.len(),
{
    if q.len() > 0 {
        let q1 = q.drop_last();
        assert(!q1.contains('/')) by {
            if q1.contains('/') {
                let k = choose|k: int| 0 <= k < q1.len() && q1[k] == '/';
                assert(q[k] == '/');
            }
        }
        lemma_split_no_slash(q1);
        assert(q[q.len() - 1] == q.last());
        assert(q1.push(q.last()) =~= q);
        assert(split_slash(q) =~= seq![q]);
    }
}

/// Joining the pieces of `p` gives back `p`.
pub proof fn lemma_join_split(p: Seq<char>)
    ensures
        join_slash(split_slash(p)) == p,
    decreases p.len(),
{
    lemma_split_len(p);
    if p.len() > 0 {
        let q = p.drop_last();
        lemma_join_split(q);
        lemma_split_len(q);
        let s = split_slash(q);
        if p.last() == '/' {
            assert(s.push(Seq::<char>::empty()).drop_last() =~= s);
            assert(join_slash(split_slash(p)) =~= q + seq!['/']);
            assert(p =~= q + seq!['/']);
        } else {
            let t = s.update(s.len() - 1, s.last().push(p.last()));
            if s.len() == 1 {
                assert(join_slash(t) =~= p);
            } else {
                assert(t.drop_last() =~= s.drop_last());
                assert(join_slash(s) == join_slash(s.drop_last()) + seq!['/'] + s.last());
                assert(join_slash(t) =~= join_slash(s) + seq![p.last()]);
                assert(p =~= q + seq![p.last()]);
            }
        }
    }
}

/// `p` is its parent, a `/`, and a last piece with no `/`.
pub proof fn lemma_last_slash(p: Seq<char>)
    ensures
        -1 <= last_slash(p) < p.len(),
        last_slash(p) >= 0 ==> p[last_slash(p)] == '/' && !p.skip(last_slash(p) + 1).contains('/')
            && p == p.take(last_slash(p)) + seq!['/'] + p.skip(last_slash(p) + 1),
        last_slash(p) < 0 ==> !p.contains('/'),
    decreases p.len(),
{
    if p.len() > 0 {
        let q = p.drop_last();
        lemma_last_slash(q);
        if p.last() == '/' {
            assert(p.skip(p.len() as int) =~= Seq::<char>::empty());
            assert(p =~= p.take(p.len() - 1) + seq!['/'] + p.skip(p.len() as int));
            assert(p[p.len() - 1] == p.last());
        } else {
            let i = last_slash(q);
            if i >= 0 {
                assert(p[i] == q[i]);
                assert(p.skip(i + 1) =~= q.skip(i + 1).push(p.last()));
                assert(!p.skip(i + 1).contains('/')) by {
                    if p.skip(i + 1).contains('/') {
                        let ps = p.skip(i + 1);
                        let k = choose|k: int| 0 <= k < ps.len() && ps[k] == '/';
                        if k < q.skip(i + 1).len() {
                            assert(q.skip(i + 1)[k] == '/');
                        }
                    }
                }
                assert(p =~= p.take(i) + seq!['/'] + p.skip(i + 1));
            } else {
                assert(!p.contains('/')) by {
                    if p.contains('/') {
                        let k = choose|k: int| 0 <= k < p.len() && p[k] == '/';
                        if k < q.len() {
                            assert(q[k] == '/');
                        }
                    }
                }
            }
        }
    }
}

/// The parent of a valid archive path is empty or a valid archive path, and
/// its components are those of the path without the last one.
pub proof fn lemma_parent_of_valid(p: Seq<char>)
    requires
        valid_archive_path(p),
    ensures
        parent_of(p).len() == 0 || valid_archive_path(parent_of(p)),
        parent_of(p).len() > 0 ==> split_slash(parent_of(p)) == split_slash(p).drop_last(),
        parent_of(p).len() < p.len(),
{
    lemma_last_slash(p);
    let i = last_slash(p);
    if i >= 0 {
        let par = p.take(i);
        let name = p.skip(i + 1);
        lemma_split_append(par, name);
        lemma_split_len(par);
        let sp = split_slash(p);
        assert(sp == split_slash(par).push(name));
        assert forall|k: int| 0 <= k < split_slash(par).len() implies valid_component(
            #[trigger] split_slash(par)[k],
        ) by {
            assert(split_slash(par)[k] == sp[k]);
        }
        assert(valid_component(split_slash(par).last())) by {
            assert(split_slash(par).last() == sp[split_slash(par).len() - 1]);
        }
        lemma_split_last(par);
        lemma_split_first(par);
        assert(valid_component(split_slash(par)[0])) by {
            assert(split_slash(par)[0] == sp[0]);
        }
        assert(!par.contains('\0')) by {
            if par.contains('\0') {
                let k = choose|k: int| 0 <= k < par.len() && par[k] == '\0';
                assert(p[k] == '\0');
            }
        }
        assert(sp.drop_last() =~= split_slash(par));
    }
}

/// Joining valid components gives a valid archive path.
pub proof fn lemma_join_valid(cs: Seq<Seq<char>>)
    requires
        cs.len() >= 1,
        forall|i: int| 0 <= i < cs.len() ==> valid_component(#[trigger] cs[i]),
        forall|i: int| 0 <= i < cs.len() ==> !(#[trigger] cs[i]).contains('/'),
    ensures
        valid_archive_path(join_slash(cs)),
        split_slash(join_slash(cs)) == cs,
{
    lemma_split_join(cs);
    let p = join_slash(cs);
    lemma_split_first(p);
    lemma_split_last(p);
    assert(valid_component(cs[0]));
    assert(valid_component(cs[cs.len() - 1]));
    assert(!p.contains('\0')) by {
        if p.contains('\0') {
            let k = choose|k: int| 0 <= k < p.len() && p[k] == '\0';
            lemma_char_in_piece(p, k);
            let (i, j) = choose|i: int, j: int|
                0 <= i < split_slash(p).len() && 0 <= j < split_slash(p)[i].len() && split_slash(
                    p,
                )[i][j] == p[k];
            assert(cs[i].contains('\0')) by {
                assert(cs[i][j] == '\0');
            }
        }
    }
}

/// Every character of `p` other than `/` lies in one of its pieces.
pub proof fn lemma_char_in_piece(p: Seq<char>, k: int)
    requires
        0 <= k < p.len(),
        p[k] != '/',
    ensures
        exists|i: int, j: int|
            0 <= i < split_slash(p).len() && 0 <= j < split_slash(p)[i].len() && split_slash(
                p,
            )[i][j] == p[k],
    decreases p.len(),
{
    lemma_split_len(p);
    let q = p.drop_last();
    lemma_split_len(q);
    if k == p.len() - 1 {
        let s = split_slash(q);
        let i = s.len() - 1;
        let j = s.last().len() as int;
        assert(p.last() == p[k]);
        assert(split_slash(p)[i][j] == p[k]);
    } else {
        lemma_char_in_piece(q, k);
        let (i, j) = choose|i: int, j: int|
            0 <= i < split_slash(q).len() && 0 <= j < split_slash(q)[i].len() && split_slash(
                q,
            )[i][j] == q[k];
        assert(split_slash(p)[i][j] == p[k]);
    }
}

/// Checks one path component.
pub fn validate_component(component: &str) -> (r: Result<()>)
    ensures
        r is Ok <==> valid_component(component@),
        r matches Err(e) ==> e matches Error::InvalidPath(m) && m@ == component@,
{
    let c = chars_of(component);
    let n = c.len();
    if n == 0 || (n == 1 && c[0] == '.') || (n == 2 && c[0] == '.' && c[1] == '.') {
        assert(n == 1 ==> c@ =~= seq![c@[0]]);
        assert(n == 2 ==> c@ =~= seq![c@[0], c@[1]]);
        return Err(Error::InvalidPath(owned(component)));
    }
    assert(c@ != seq!['.']) by {
        if c@ == seq!['.'] {
            assert(c@[0] == '.');
        }
    }
    assert(c@ != seq!['.', '.']) by {
        if c@ == seq!['.', '.'] {
            assert(c@[0] == '.' && c@[1] == '.');
        }
    }
    let mut i: usize = 0;
    while i < n
        invariant
            n == c@.len(),
            c@ == component@,
            i <= n,
            forall|j: int| 0 <= j < i ==> c@[j] != '\0',
        decreases n - i,
    {
        if c[i] == '\0' {
            return Err(Error::InvalidPath(owned(component)));
        }
        i = i + 1;
    }
    Ok(())
}

/// Checks that `path` is a valid archive path.
pub fn validate_archive_path(path: &str) -> (r: Result<()>)
    ensures
        r is Ok <==> valid_archive_path(path@),
        r matches Err(e) ==> e matches Error::InvalidPath(m) && path_error_message(path@, m@),
{
    let c = chars_of(path);
    let n = c.len();
    if n == 0 {
        return Err(Error::InvalidPath(owned("empty path")));
    }
    let mut has_nul = false;
    let mut i: usize = 0;
    while i < n
        invariant
            n == c@.len(),
            i <= n,
            has_nul == c@.take(i as int).contains('\0'),
        decreases n - i,
    {
        if c[i] == '\0' {
            has_nul = true;
        }
        assert(c@.take(i + 1) =~= c@.take(i as int).push(c@[i as int]));
        i = i + 1;
    }
    assert(c@.take(n as int) =~= c@);
    if c[0] == '/' || c[n - 1] == '/' || has_nul {
        return Err(Error::InvalidPath(owned(path)));
    }
    let ghost p = path@;
    let mut start: usize = 0;
    let mut i: usize = 0;
    proof {
        lemma_split_len(p.take(0));
    }
    while i < n
        invariant
            p == c@,
            p == path@,
            n == p.len(),
            n > 0,
            p[0] != '/',
            p.last() != '/',
            !p.contains('\0'),
            start <= i <= n,
            split_slash(p.take(i as int)).len() >= 1,
            split_slash(p.take(i as int)).last() == p.subrange(start as int, i as int),
            forall|k: int|
                0 <= k < split_slash(p.take(i as int)).len() - 1 ==> valid_component(
                    #[trigger] split_slash(p.take(i as int))[k],
                ),
        decreases n - i,
    {
        let ghost pre = split_slash(p.take(i as int));
        assert(p.take(i + 1).drop_last() =~= p.take(i as int));
        assert(p.take(i + 1).last() == p[i as int]);
        if c[i] == '/' {
            let piece = path.substring_char(start, i);
            match validate_component(piece) {
                Ok(()) => {},
                Err(e) => {
                    proof {
                        lemma_split_prefix(p, i as int);
                        assert(first_invalid_at(split_slash(p), pre.len() - 1));
                        assert(e->InvalidPath_0@ == split_slash(p)[pre.len() - 1]);
                    }
                    return Err(e);
                },
            }
            start = i + 1;
            i = i + 1;
            assert(split_slash(p.take(i as int)) == pre.push(Seq::<char>::empty()));
            assert(p.subrange(start as int, i as int) =~= Seq::<char>::empty());
        } else {
            i = i + 1;
            assert(p.subrange(start as int, i as int) =~= p.subrange(
                start as int,
                i - 1,
            ).push(p[i - 1]));
        }
    }
    assert(p.take(n as int) =~= p);
    let piece = path.substring_char(start, n);
    match validate_component(piece) {
        Ok(()) => {},
        Err(e) => {
            proof {
                lemma_split_len(p);
                assert(first_invalid_at(split_slash(p), split_slash(p).len() - 1));
                assert(e->InvalidPath_0@ == split_slash(p)[split_slash(p).len() - 1]);
            }
            return Err(e);
        },
    }
    Ok(())
}

/// The pieces of a prefix of `p` that ends just before a `/` are the first
/// pieces of `p`, the last of them complete.
pub proof fn lemma_split_prefix(p: Seq<char>, i: int)
    requires
        0 <= i < p.len(),
        p[i] == '/',
    ensures
        split_slash(p.take(i)).len() < split_slash(p).len(),
        forall|k: int|
            0 <= k < split_slash(p.take(i)).len() ==> split_slash(p)[k] == split_slash(
                p.take(i),
            )[k],
    decreases p.len() - i,
{
    lemma_split_len(p.take(i));
    if i == p.len() - 1 {
        assert(p.drop_last() =~= p.take(i));
        assert(p.last() == p[i]);
        assert(split_slash(p) == split_slash(p.take(i)).push(Seq::<char>::empty()));
    } else {
        let q = p.drop_last();
        assert(q[i] == p[i]);
        assert(q.take(i) =~= p.take(i));
        lemma_split_prefix(q, i);
        lemma_split_len(q);
    }
}

/// What `normalize_lookup_path` gives for `p`: the empty path for the root,
/// else `p` without one leading `/` when that is a valid archive path.
pub open spec fn normalized(p: Seq<char>) -> Option<Seq<char>> {
    if names_root(p) {
        Some(Seq::<char>::empty())
    } else if valid_archive_path(lookup_key(p)) {
        Some(lookup_key(p))
    } else {
        None
    }
}

/// Turns a path given by a caller into the key it is indexed under.
pub fn normalize_lookup_path(path: &str) -> (r: Result<String>)
    ensures
        match r {
            Ok(s) => normalized(path@) == Some(s@),
            Err(e) => normalized(path@) is None && (e matches Error::InvalidPath(m)
                && path_error_message(lookup_key(path@), m@)),
        },
{
    let c = chars_of(path);
    let n = c.len();
    if n == 0 || (n == 1 && c[0] == '/') {
        assert(n == 1 ==> c@ =~= seq!['/']);
        return Ok(String::new());
    }
    assert(!names_root(path@)) by {
        if path@ == seq!['/'] {
            assert(c@[0] == '/');
        }
    }
    let stripped = if c[0] == '/' {
        path.substring_char(1, n)
    } else {
        path
    };
    assert(stripped@ == lookup_key(path@));
    validate_archive_path(stripped)?;
    Ok(owned(stripped))
}

/// Normalising twice is normalising once.
pub proof fn lemma_normalize_idempotent(p: Seq<char>)
    requires
        normalized(p) is Some,
    ensures
        normalized(normalized(p)->0) == normalized(p),
{
    let s = normalized(p)->0;
    if !names_root(p) {
        assert(s[0] != '/');
        assert(lookup_key(s) == s);
        if s == seq!['/'] {
            assert(s[0] == '/');
        }
    }
}

/// A normalised path names the root or is a valid archive path.
pub proof fn lemma_normalized_valid(p: Seq<char>)
    requires
        normalized(p) is Some,
    ensures
        normalized(p)->0.len() == 0 || valid_archive_path(normalized(p)->0),
{
}

/// The path of the directory that holds `path`; empty at the top level.
pub fn parent_path(path: &str) -> (r: &str)
    ensures
        r@ == parent_of(path@),
{
    let c = chars_of(path);
    let n = c.len();
    let mut found = false;
    let mut last: usize = 0;
    let mut i: usize = 0;
    while i < n
        invariant
            n == c@.len(),
            c@ == path@,
            i <= n,
            found <==> last_slash(c@.take(i as int)) >= 0,
            found ==> last == last_slash(c@.take(i as int)),
        decreases n - i,
    {
        assert(c@.take(i + 1).drop_last() =~= c@.take(i as int));
        assert(c@.take(i + 1).last() == c@[i as int]);
        if c[i] == '/' {
            found = true;
            last = i;
        }
        i = i + 1;
    }
    assert(c@.take(n as int) =~= c@);
    if found {
        proof {
            lemma_last_slash(path@);
        }
        path.substring_char(0, last)
    } else {
        proof {
            reveal_strlit("");
        }
        ""
    }
}

/// The components of an archive path, in order.
pub fn path_from_archive(path: &str) -> (r: Vec<String>)
    ensures
        r@.len() == split_slash(path@).len(),
        forall|i: int| 0 <= i < r@.len() ==> (#[trigger] r@[i])@ == split_slash(path@)[i],
{
    let c = chars_of(path);
    let n = c.len();
    let ghost p = path@;
    let mut parts: Vec<String> = Vec::new();
    let mut start: usize = 0;
    let mut i: usize = 0;
    proof {
        lemma_split_len(p.take(0));
    }
    while i < n
        invariant
            p == c@,
            p == path@,
            n == p.len(),
            start <= i <= n,
            split_slash(p.take(i as int)).len() == parts@.len() + 1,
            split_slash(p.take(i as int)).last() == p.subrange(start as int, i as int),
            forall|k: int|
                0 <= k < parts@.len() ==> (#[trigger] parts@[k])@ == split_slash(
                    p.take(i as int),
                )[k],
        decreases n - i,
    {
        let ghost pre = split_slash(p.take(i as int));
        assert(p.take(i + 1).drop_last() =~= p.take(i as int));
        assert(p.take(i + 1).last() == p[i as int]);
        if c[i] == '/' {
            parts.push(owned(path.substring_char(start, i)));
            start = i + 1;
            i = i + 1;
            assert(split_slash(p.take(i as int)) == pre.push(Seq::<char>::empty()));
            assert(p.subrange(start as int, i as int) =~= Seq::<char>::empty());
        } else {
            i = i + 1;
            assert(p.subrange(start as int, i as int) =~= p.subrange(
                start as int,
                i - 1,
            ).push(p[i - 1]));
        }
    }
    assert(p.take(n as int) =~= p);
    parts.push(owned(path.substring_char(start, n)));
    parts
}

/// One component of a filesystem path, in the terms of
/// `std::path::Component`; a prefix or a name is held as its raw bytes.
#[derive(Debug, Clone)]
pub enum PathPart {
    Prefix(Vec<u8>),
    RootDir,
    CurDir,
    ParentDir,
    Normal(Vec<u8>),
}

/// Two components are the same (as `Path::strip_prefix` compares them).
pub open spec fn same_part(a: PathPart, b: PathPart) -> bool {
    match (a, b) {
        (PathPart::Prefix(x), PathPart::Prefix(y)) => x@ == y@,
        (PathPart::RootDir, PathPart::RootDir) => true,
        (PathPart::CurDir, PathPart::CurDir) => true,
        (PathPart::ParentDir, PathPart::ParentDir) => true,
        (PathPart::Normal(x), PathPart::Normal(y)) => x@ == y@,
        _ => false,
    }
}

/// `root` is a leading part of `path`.
pub open spec fn parts_prefix(root: Seq<PathPart>, path: Seq<PathPart>) -> bool {
    &&& root.len() <= path.len()
    &&& forall|i: int| 0 <= i < root.len() ==> same_part(#[trigger] root[i], path[i])
}

/// The text of a name component, when it is one and is valid UTF-8.
pub open spec fn part_text(p: PathPart) -> Option<Seq<char>> {
    match p {
        PathPart::Normal(b) => if valid_utf8(b@) {
            Some(decode_utf8(b@))
        } else {
            None
        },
        _ => None,
    }
}

/// The texts of the components `parts`, for those that have one.
pub open spec fn part_texts(parts: Seq<PathPart>) -> Seq<Seq<char>> {
    parts.map(|i: int, p: PathPart| part_text(p)->0)
}

/// `path_to_archive` succeeds on `root` and `path`: the path lies under the
/// root, every component below it is a UTF-8 name that is a valid component,
/// and the names joined with `/` form a valid archive path.
pub open spec fn archivable(root: Seq<PathPart>, path: Seq<PathPart>) -> bool {
    let rel = path.skip(root.len() as int);
    &&& parts_prefix(root, path)
    &&& forall|k: int| 0 <= k < rel.len() ==> (#[trigger] part_text(rel[k])) is Some
        && valid_component(part_text(rel[k])->0)
    &&& valid_archive_path(join_slash(part_texts(rel)))
}

/// A component below the root that `path_to_archive` takes: a UTF-8 name
/// that is a valid component.
pub open spec fn part_ok(p: PathPart) -> bool {
    part_text(p) is Some && valid_component(part_text(p)->0)
}

/// What `path_to_archive` reports about a component it does not take.
pub open spec fn part_problem(p: PathPart, display: Seq<char>) -> Seq<char> {
    match p {
        PathPart::Normal(b) => if !valid_utf8(b@) {
            "non-UTF-8 path: "@ + display
        } else {
            decode_utf8(b@)
        },
        _ => "non-relative component in "@ + display,
    }
}

/// What `path_to_archive` reports when it fails: the display form when the
/// path is not under the root, else the problem with the first component it
/// does not take, else what validating the joined path reports.
pub open spec fn archive_path_error(root: Seq<PathPart>, path: Seq<PathPart>, display: Seq<char>, m: Seq<char>) -> bool {
    let rel = path.skip(root.len() as int);
    if !parts_prefix(root, path) {
        m == display
    } else if exists|k: int| 0 <= k < rel.len() && !part_ok(#[trigger] rel[k]) {
        exists|k: int| 0 <= k < rel.len() && !part_ok(#[trigger] rel[k]) && (forall|j: int| 0 <= j < k ==> part_ok(#[trigger] rel[j])) && m == part_problem(rel[k], display)
    } else {
        path_error_message(join_slash(part_texts(rel)), m)
    }
}

/// The text of `bytes` when they are valid UTF-8 (`std::str::from_utf8`).
#[verifier::external_body]
fn utf8_text(bytes: &[u8]) -> (r: Option<&str>)
    ensures
        r is Some <==> valid_utf8(bytes@),
        r matches Some(s) ==> s@ == decode_utf8(bytes@),
{
    std::str::from_utf8(bytes).ok()
}

fn same_bytes(a: &Vec<u8>, b: &Vec<u8>) -> (r: bool)
    ensures
        r == (a@ == b@),
{
    if a.len() != b.len() {
        return false;
    }
    let mut i: usize = 0;
    while i < a.len()
        invariant
            a@.len() == b@.len(),
            i <= a@.len(),
            forall|j: int| 0 <= j < i ==> a@[j] == b@[j],
        decreases a@.len() - i,
    {
        if a[i] != b[i] {
            return false;
        }
        i = i + 1;
    }
    assert(a@ =~= b@);
    true
}

fn same_part_exec(a: &PathPart, b: &PathPart) -> (r: bool)
    ensures
        r == same_part(*a, *b),
{
    match (a, b) {
        (PathPart::Prefix(x), PathPart::Prefix(y)) => same_bytes(x, y),
        (PathPart::RootDir, PathPart::RootDir) => true,
        (PathPart::CurDir, PathPart::CurDir) => true,
        (PathPart::ParentDir, PathPart::ParentDir) => true,
        (PathPart::Normal(x), PathPart::Normal(y)) => same_bytes(x, y),
        _ => false,
    }
}

/// The archive path of `path`, a filesystem path under `root`, both given by
/// their components; `display` is how `path` is shown in error messages.
pub fn path_to_archive(root: &[PathPart], path: &[PathPart], display: &str) -> (r: Result<
    String,
>)
    ensures
        r is Ok <==> archivable(root@, path@),
        r matches Ok(s) ==> s@ == join_slash(part_texts(path@.skip(root@.len() as int))),
        r matches Err(e) ==> e matches Error::InvalidPath(m) && archive_path_error(root@, path@, display@, m@),
{
    if root.len() > path.len() {
        return Err(Error::InvalidPath(owned(display)));
    }
    let mut i: usize = 0;
    while i < root.len()
        invariant
            root@.len() <= path@.len(),
            i <= root@.len(),
            forall|j: int| 0 <= j < i ==> same_part(#[trigger] root@[j], path@[j]),
        decreases root@.len() - i,
    {
        if !same_part_exec(&root[i], &path[i]) {
            return Err(Error::InvalidPath(owned(display)));
        }
        i = i + 1;
    }
    let ghost rel = path@.skip(root@.len() as int);
    let mut result = String::new();
    let mut k: usize = root.len();
    while k < path.len()
        invariant
            parts_prefix(root@, path@),
            rel == path@.skip(root@.len() as int),
            root@.len() <= k <= path@.len(),
            forall|j: int|
                0 <= j < k - root@.len() ==> (#[trigger] part_text(rel[j])) is Some
                    && valid_component(part_text(rel[j])->0),
            result@ == join_slash(part_texts(rel.take(k - root@.len()))),
        decreases path@.len() - k,
    {
        let ghost done = k - root@.len();
        assert(rel[done] == path@[k as int]);
        match &path[k] {
            PathPart::Normal(bytes) => {
                match utf8_text(bytes.as_slice()) {
                    None => {
                        assert(part_text(rel[done]) is None);
                        return Err(Error::InvalidPath(concat("non-UTF-8 path: ", display)));
                    },
                    Some(text) => {
                        assert(part_text(rel[done]) == Some(text@));
                        validate_component(text)?;
                        assert(part_texts(rel.take(done + 1)) =~= part_texts(rel.take(
                            done,
                        )).push(text@));
                        if k > root.len() {
                            result.append("/");
                            proof {
                                reveal_strlit("/");
                            }
                        } else {
                            assert(part_texts(rel.take(done)) =~= Seq::<Seq<char>>::empty());
                        }
                        result.append(text);
                        let ghost xs = part_texts(rel.take(done));
                        assert(xs.push(text@).drop_last() =~= xs);
                        assert(xs.push(text@).last() == text@);
                        assert(result@ =~= join_slash(xs.push(text@)));
                    },
                }
            },
            _ => {
                return Err(
                    Error::InvalidPath(concat("non-relative component in ", display)),
                );
            },
        }
        k = k + 1;
    }
    assert(rel.take(path@.len() - root@.len()) =~= rel);
    validate_archive_path(result.as_str())?;
    Ok(result)
}

/// The filesystem path under `root` whose components are those of a valid
/// archive path `s`, each as the UTF-8 bytes of its text (`root` joined with
/// `path_from_archive(s)`), is archivable and is archived as `s` again.
pub proof fn law_archive_path_round_trip(root: Seq<PathPart>, rel: Seq<PathPart>, s: Seq<char>)
    requires
        valid_archive_path(s),
        rel.len() == split_slash(s).len(),
        forall|k: int| 0 <= k < rel.len() ==> ((#[trigger] rel[k]) matches PathPart::Normal(b)
            && b@ == vstd::utf8::encode_utf8(split_slash(s)[k])),
    ensures
        archivable(root, root + rel),
        join_slash(part_texts((root + rel).skip(root.len() as int))) == s,
{
    let path = root + rel;
    assert(path.skip(root.len() as int) =~= rel);
    assert forall|i: int| 0 <= i < root.len() implies same_part(#[trigger] root[i], path[i]) by {
        assert(path[i] == root[i]);
    }
    assert forall|k: int| 0 <= k < rel.len() implies part_text(#[trigger] rel[k]) == Some(split_slash(s)[k]) by {
        vstd::utf8::encode_utf8_valid_utf8(split_slash(s)[k]);
        vstd::utf8::encode_utf8_decode_utf8(split_slash(s)[k]);
    }
    assert(part_texts(rel) =~= split_slash(s));
    lemma_join_split(s);
}

} // verus!
