//! Paths: reading them, and making them absolute.

use vstd::prelude::*;

use crate::memory::access::{mem, Mem, Memory};
use crate::syscall::errno::{ENAMETOOLONG, ENOENT};

verus! {

/// A path and the byte that ends it take no more than this.
pub const PATH_MAX: u64 = 4096;

pub const SLASH: u8 = 0x2f;

pub const DOT: u8 = 0x2e;

/// The parts of a path that slashes separate.
pub open spec fn parts_of(path: Seq<u8>) -> Seq<Seq<u8>>
    decreases path.len(),
{
    if path.len() == 0 {
        seq![Seq::<u8>::empty()]
    } else {
        let before = parts_of(path.drop_last());
        if path.last() == SLASH {
            before.push(Seq::empty())
        } else {
            before.drop_last().push(before.last().push(path.last()))
        }
    }
}

/// The way `w` after one more part: nothing and `.` stay, `..` goes back.
pub open spec fn step(w: Seq<Seq<u8>>, part: Seq<u8>) -> Seq<Seq<u8>> {
    if part.len() == 0 || part == seq![DOT] {
        w
    } else if part == seq![DOT, DOT] {
        if w.len() > 0 { w.drop_last() } else { w }
    } else {
        w.push(part)
    }
}

/// The way from the root that the parts lead.
pub open spec fn walk(parts: Seq<Seq<u8>>) -> Seq<Seq<u8>>
    decreases parts.len(),
{
    if parts.len() == 0 { Seq::empty() } else { step(walk(parts.drop_last()), parts.last()) }
}

/// The parts with a slash before each.
pub open spec fn slashed(parts: Seq<Seq<u8>>) -> Seq<u8>
    decreases parts.len(),
{
    if parts.len() == 0 { Seq::empty() } else { slashed(parts.drop_last()).push(SLASH) + parts.last() }
}

/// The path of a way from the root.
pub open spec fn path_of(way: Seq<Seq<u8>>) -> Seq<u8> {
    if way.len() == 0 { seq![SLASH] } else { slashed(way) }
}

/// The shortest absolute path to the same place.
pub open spec fn normalized(path: Seq<u8>) -> Seq<u8> {
    path_of(walk(parts_of(path)))
}

/// What a `Vec` of parts holds.
pub open spec fn contents(parts: Seq<Vec<u8>>) -> Seq<Seq<u8>> {
    Seq::new(parts.len(), |i: int| parts[i]@)
}

fn take_step(way: &mut Vec<Vec<u8>>, part: Vec<u8>)
    ensures
        contents(final(way)@) == step(contents(old(way)@), part@),
{
    let ghost before = contents(way@);
    if part.len() == 0 {
        return;
    }
    if part.len() == 1 && part[0] == DOT {
        assert(part@ =~= seq![DOT]);
        return;
    }
    if part.len() == 2 && part[0] == DOT && part[1] == DOT {
        assert(part@ =~= seq![DOT, DOT]);
        assert(part@.len() == 2 && seq![DOT].len() == 1);
        if way.len() > 0 {
            way.pop();
            assert(contents(way@) =~= before.drop_last());
        }
        return;
    }
    way.push(part);
    assert(contents(way@) =~= before.push(part@));
}

/// The shortest absolute path to the same place.
pub fn normalize_abs_path(path: &[u8]) -> (r: Vec<u8>)
    ensures
        r@ == normalized(path@),
{
    let mut way: Vec<Vec<u8>> = Vec::new();
    let mut part: Vec<u8> = Vec::new();
    let mut i: usize = 0;
    proof {
        assert(path@.take(0) =~= Seq::<u8>::empty());
        assert(parts_of(path@.take(0)).drop_last() =~= Seq::<Seq<u8>>::empty());
        assert(contents(way@) =~= Seq::<Seq<u8>>::empty());
        assert(part@ =~= Seq::<u8>::empty());
    }
    while i < path.len()
        invariant
            i <= path@.len(),
            parts_of(path@.take(i as int)).len() > 0,
            contents(way@) == walk(parts_of(path@.take(i as int)).drop_last()),
            part@ == parts_of(path@.take(i as int)).last(),
        decreases path@.len() - i,
    {
        let b: u8 = path[i];
        let ghost before = parts_of(path@.take(i as int));
        let ghost after = parts_of(path@.take(i + 1));
        proof {
            assert(path@.take(i + 1).drop_last() =~= path@.take(i as int));
            assert(path@.take(i + 1).last() == b);
        }
        if b == SLASH {
            proof {
                assert(after.drop_last() =~= before);
            }
            take_step(&mut way, part);
            part = Vec::new();
            assert(part@ =~= Seq::<u8>::empty());
        } else {
            part.push(b);
            proof {
                assert(after.drop_last() =~= before.drop_last());
            }
        }
        i += 1;
    }
    assert(path@.take(path@.len() as int) =~= path@);
    take_step(&mut way, part);
    let ghost w = contents(way@);
    assert(w == walk(parts_of(path@)));
    let mut out: Vec<u8> = Vec::new();
    if way.len() == 0 {
        out.push(SLASH);
        assert(out@ =~= seq![SLASH]);
        return out;
    }
    let mut k: usize = 0;
    assert(w.take(0) =~= Seq::<Seq<u8>>::empty());
    assert(out@ =~= Seq::<u8>::empty());
    while k < way.len()
        invariant
            k <= way@.len(),
            w == contents(way@),
            out@ == slashed(w.take(k as int)),
        decreases way@.len() - k,
    {
        proof {
            assert(w.take(k + 1).drop_last() =~= w.take(k as int));
            assert(w.take(k + 1).last() == way@[k as int]@);
        }
        out.push(SLASH);
        out.extend_from_slice(way[k].as_slice());
        k += 1;
    }
    assert(w.take(w.len() as int) =~= w);
    out
}

/// A part that a shortest path may hold.
pub open spec fn is_plain(part: Seq<u8>) -> bool {
    part.len() > 0 && part != seq![DOT] && part != seq![DOT, DOT] && !part.contains(SLASH)
}

pub proof fn lemma_parts_have_no_slash(path: Seq<u8>)
    ensures
        parts_of(path).len() > 0,
        forall|i: int| 0 <= i < parts_of(path).len() ==> !(#[trigger] parts_of(path)[i]).contains(SLASH),
    decreases path.len(),
{
    if path.len() > 0 {
        lemma_parts_have_no_slash(path.drop_last());
        let before = parts_of(path.drop_last());
        let now = parts_of(path);
        assert forall|i: int| 0 <= i < now.len() implies !(#[trigger] now[i]).contains(SLASH) by {
            if path.last() == SLASH {
                if i < before.len() {
                    assert(now[i] == before[i]);
                }
            } else if i < before.len() - 1 {
                assert(now[i] == before[i]);
            } else {
                let p = before.last().push(path.last());
                assert(now[i] == p);
                assert(!before[before.len() - 1].contains(SLASH));
                if p.contains(SLASH) {
                    let k = choose|k: int| 0 <= k < p.len() && p[k] == SLASH;
                    assert(k < before.last().len());
                    assert(before.last()[k] == SLASH);
                }
            }
        }
    }
}

pub proof fn lemma_walk_plain(parts: Seq<Seq<u8>>)
    requires
        forall|i: int| 0 <= i < parts.len() ==> !(#[trigger] parts[i]).contains(SLASH),
    ensures
        forall|i: int| 0 <= i < walk(parts).len() ==> is_plain(#[trigger] walk(parts)[i]),
    decreases parts.len(),
{
    if parts.len() > 0 {
        lemma_walk_plain(parts.drop_last());
        let w = walk(parts.drop_last());
        assert(!parts[parts.len() - 1].contains(SLASH));
        assert forall|i: int| 0 <= i < walk(parts).len() implies is_plain(#[trigger] walk(parts)[i]) by {
            if i < w.len() {
                assert(is_plain(w[i]));
            }
        }
    }
}

proof fn lemma_walk_of_plain(parts: Seq<Seq<u8>>)
    requires
        forall|i: int| 0 <= i < parts.len() ==> is_plain(#[trigger] parts[i]),
    ensures
        walk(seq![Seq::<u8>::empty()] + parts) == parts,
    decreases parts.len(),
{
    let all = seq![Seq::<u8>::empty()] + parts;
    if parts.len() == 0 {
        reveal_with_fuel(walk, 3);
        assert(all =~= seq![Seq::<u8>::empty()]);
        assert(all.drop_last() =~= Seq::<Seq<u8>>::empty());
        assert(walk(all) =~= parts);
    } else {
        lemma_walk_of_plain(parts.drop_last());
        assert(all.drop_last() =~= seq![Seq::<u8>::empty()] + parts.drop_last());
        assert(is_plain(parts[parts.len() - 1]));
        assert(parts.drop_last().push(parts.last()) =~= parts);
    }
}

/// Adding bytes without a slash lengthens the last part.
pub proof fn lemma_parts_append(path: Seq<u8>, part: Seq<u8>)
    requires
        !part.contains(SLASH),
    ensures
        parts_of(path + part) == parts_of(path).drop_last().push(parts_of(path).last() + part),
    decreases part.len(),
{
    lemma_parts_have_no_slash(path);
    let p = parts_of(path);
    if part.len() == 0 {
        assert(path + part =~= path);
        assert(p.last() + part =~= p.last());
        assert(p.drop_last().push(p.last()) =~= p);
    } else {
        let init = part.drop_last();
        assert(!init.contains(SLASH)) by {
            if init.contains(SLASH) {
                let k = choose|k: int| 0 <= k < init.len() && init[k] == SLASH;
                assert(part[k] == SLASH);
            }
        }
        assert(part[part.len() - 1] != SLASH);
        lemma_parts_append(path, init);
        assert((path + part).drop_last() =~= path + init);
        let q = parts_of(path + init);
        assert(q.drop_last() =~= p.drop_last());
        assert((p.last() + init).push(part.last()) =~= p.last() + part);
    }
}

proof fn lemma_parts_of_slashed(parts: Seq<Seq<u8>>)
    requires
        forall|i: int| 0 <= i < parts.len() ==> !(#[trigger] parts[i]).contains(SLASH),
    ensures
        parts_of(slashed(parts)) == seq![Seq::<u8>::empty()] + parts,
    decreases parts.len(),
{
    if parts.len() == 0 {
        assert(seq![Seq::<u8>::empty()] + parts =~= seq![Seq::<u8>::empty()]);
    } else {
        let init = parts.drop_last();
        lemma_parts_of_slashed(init);
        let s = slashed(init).push(SLASH);
        assert(s.drop_last() =~= slashed(init));
        let p = parts_of(s);
        assert(p =~= (seq![Seq::<u8>::empty()] + init).push(Seq::empty()));
        assert(!parts[parts.len() - 1].contains(SLASH));
        lemma_parts_append(s, parts.last());
        assert(Seq::<u8>::empty() + parts.last() =~= parts.last());
        assert(p.drop_last().push(parts.last()) =~= seq![Seq::<u8>::empty()] + parts);
    }
}

/// A shortest path is its own shortest path.
pub proof fn law_normalized_is_shortest(path: Seq<u8>)
    ensures
        normalized(normalized(path)) == normalized(path),
        normalized(path).len() > 0 && normalized(path)[0] == SLASH,
        forall|i: int| 0 <= i < walk(parts_of(path)).len() ==> is_plain(#[trigger] walk(parts_of(path))[i]),
{
    lemma_parts_have_no_slash(path);
    let w = walk(parts_of(path));
    lemma_walk_plain(parts_of(path));
    if w.len() == 0 {
        reveal_with_fuel(walk, 3);
        reveal_with_fuel(parts_of, 3);
        let root = seq![SLASH];
        assert(root.drop_last() =~= Seq::<u8>::empty());
        assert(parts_of(root) =~= seq![Seq::<u8>::empty(), Seq::<u8>::empty()]);
        let two = parts_of(root);
        assert(two.drop_last() =~= seq![Seq::<u8>::empty()]);
        assert(two.drop_last().drop_last() =~= Seq::<Seq<u8>>::empty());
        assert(walk(two.drop_last()) =~= Seq::<Seq<u8>>::empty());
        assert(walk(two) =~= Seq::<Seq<u8>>::empty());
    } else {
        lemma_parts_of_slashed(w);
        lemma_walk_of_plain(w);
        lemma_slashed_first(w);
    }
}

pub proof fn lemma_slashed_first(parts: Seq<Seq<u8>>)
    requires
        parts.len() > 0,
    ensures
        slashed(parts).len() > 0,
        slashed(parts)[0] == SLASH,
    decreases parts.len(),
{
    reveal_with_fuel(slashed, 3);
    if parts.len() > 1 {
        lemma_slashed_first(parts.drop_last());
    }
}

/// How many bytes come before the first 0 from `ptr` up, counted up to the limit.
pub open spec fn c_len(m: Mem, ptr: u64, from: int) -> int
    decreases PATH_MAX - from,
{
    if from >= PATH_MAX || m.bytes[ptr + from - m.base] == 0 { from } else { c_len(m, ptr, from + 1) }
}

pub proof fn lemma_c_len(m: Mem, ptr: u64, from: int)
    requires
        0 <= from <= PATH_MAX,
    ensures
        from <= c_len(m, ptr, from) <= PATH_MAX,
    decreases PATH_MAX - from,
{
    if from < PATH_MAX && m.bytes[ptr + from - m.base] != 0 {
        lemma_c_len(m, ptr, from + 1);
    }
}

/// The bytes that are read to find the end of a path can be read.
pub open spec fn path_readable(m: Mem, ptr: u64) -> bool {
    m.reaches(ptr, if c_len(m, ptr, 0) < PATH_MAX { c_len(m, ptr, 0) + 1 } else { PATH_MAX as int })
}

/// The working directory: a path, or the root if none was set.
pub struct Cwd {
    pub path: Option<Vec<u8>>,
}

impl View for Cwd {
    type V = Seq<u8>;

    open spec fn view(&self) -> Seq<u8> {
        match self.path {
            Some(p) => p@,
            None => seq![SLASH],
        }
    }
}

impl Cwd {
    /// The root.
    pub fn new() -> (r: Self)
        ensures
            r@ == seq![SLASH],
    {
        Cwd { path: None }
    }

    /// The path of the working directory.
    pub fn cwd_bytes(&self) -> (r: Vec<u8>)
        ensures
            r@ == self@,
    {
        let mut r: Vec<u8> = Vec::new();
        match &self.path {
            Some(p) => {
                r.extend_from_slice(p.as_slice());
            },
            None => {
                r.push(SLASH);
            },
        }
        assert(r@ =~= self@);
        r
    }
}

/// The path with a slash at its end.
pub open spec fn with_slash(p: Seq<u8>) -> Seq<u8> {
    if p.len() > 0 && p.last() == SLASH { p } else { p.push(SLASH) }
}

/// The path with a slash at its start.
pub open spec fn rooted(p: Seq<u8>) -> Seq<u8> {
    if p.len() > 0 && p[0] == SLASH { p } else { seq![SLASH] + p }
}

/// The absolute path of a path that is not empty.
pub open spec fn absolute(raw: Seq<u8>, cwd: Seq<u8>) -> Seq<u8> {
    normalized(rooted(if raw[0] == SLASH { raw } else { with_slash(cwd) + raw }))
}

/// The path that a user means.
pub open spec fn user_path(m: Mem, ptr: u64, cwd: Seq<u8>, allow_empty: bool) -> Result<Seq<u8>, i64> {
    let n = c_len(m, ptr, 0);
    if n >= PATH_MAX {
        Err(ENAMETOOLONG)
    } else if n == 0 {
        if allow_empty { Ok(Seq::empty()) } else { Err(ENOENT) }
    } else {
        Ok(absolute(m.range(ptr as int, n), cwd))
    }
}

/// The same as `user_path`, for what holds the path as a `Vec`.
pub open spec fn is_user_path(r: Result<Vec<u8>, i64>, p: Result<Seq<u8>, i64>) -> bool {
    match p {
        Ok(path) => r is Ok && r->Ok_0@ == path,
        Err(e) => r is Err && r->Err_0 == e,
    }
}

/// Reads a path from the user's memory, and makes it absolute.
pub fn read_user_path_inner<M: Memory>(um: &M, ptr: u64, cwd: &Cwd, allow_empty: bool) -> (r: Result<Vec<u8>, i64>)
    requires
        path_readable(mem(um), ptr),
    ensures
        is_user_path(r, user_path(mem(um), ptr, cwd@, allow_empty)),
{
    let ghost m = mem(um);
    let mut raw: Vec<u8> = Vec::new();
    let mut len: u64 = 0;
    proof {
        lemma_c_len(m, ptr, 0);
        assert(raw@ =~= m.range(ptr as int, 0));
    }
    while len < PATH_MAX
        invariant_except_break
            c_len(m, ptr, 0) == c_len(m, ptr, len as int),
        invariant
            len <= PATH_MAX,
            m == mem(um),
            path_readable(m, ptr),
            raw@ == m.range(ptr as int, len as int),
        ensures
            len == c_len(m, ptr, 0),
        decreases PATH_MAX - len,
    {
        proof {
            lemma_c_len(m, ptr, len as int);
        }
        let b = um.read_u8(ptr + len);
        if b == 0 {
            break;
        }
        raw.push(b);
        len += 1;
        assert(raw@ =~= m.range(ptr as int, len as int));
    }
    if len >= PATH_MAX {
        return Err(ENAMETOOLONG);
    }
    if raw.len() == 0 {
        return if allow_empty {
            let empty: Vec<u8> = Vec::new();
            assert(empty@ =~= Seq::<u8>::empty());
            Ok(empty)
        } else {
            Err(ENOENT)
        };
    }
    let ghost given = raw@;
    let mut abs: Vec<u8> = Vec::new();
    if raw[0] == SLASH {
        abs = raw;
    } else {
        abs = cwd.cwd_bytes();
        if abs.len() == 0 || abs[abs.len() - 1] != SLASH {
            abs.push(SLASH);
        }
        abs.extend_from_slice(raw.as_slice());
        assert(abs@ =~= with_slash(cwd@) + given);
    }
    let ghost whole = abs@;
    if abs.len() == 0 || abs[0] != SLASH {
        abs.insert(0, SLASH);
        assert(abs@ =~= seq![SLASH] + whole);
    }
    Ok(normalize_abs_path(abs.as_slice()))
}

/// Reads a path that must not be empty.
pub fn read_user_path<M: Memory>(um: &M, ptr: u64, cwd: &Cwd) -> (r: Result<Vec<u8>, i64>)
    requires
        path_readable(mem(um), ptr),
    ensures
        is_user_path(r, user_path(mem(um), ptr, cwd@, false)),
{
    read_user_path_inner(um, ptr, cwd, false)
}

/// The position of the last byte for which being a slash is `slash`, among the first `n`, or -1.
pub open spec fn last_where(path: Seq<u8>, slash: bool, n: int) -> int
    decreases n,
{
    if n <= 0 {
        -1
    } else if (path[n - 1] == SLASH) == slash {
        n - 1
    } else {
        last_where(path, slash, n - 1)
    }
}

/// The directory and the name that a path ends with. Slashes at the end do not count. There is none
/// if the path has nothing else.
pub open spec fn split(path: Seq<u8>) -> Option<(Seq<u8>, Seq<u8>)> {
    let end = last_where(path, false, path.len() as int) + 1;
    let slash = last_where(path, true, end);
    if end == 0 {
        None
    } else if slash < 0 {
        Some((Seq::empty(), path.take(end)))
    } else {
        Some((path.take(slash), path.subrange(slash + 1, end)))
    }
}

pub proof fn lemma_last_where(path: Seq<u8>, slash: bool, n: int)
    requires
        0 <= n <= path.len(),
    ensures
        ({
            let k = last_where(path, slash, n);
            &&& -1 <= k < n
            &&& k >= 0 ==> (path[k] == SLASH) == slash
            &&& forall|j: int| k < j < n ==> (path[j] == SLASH) != slash
        }),
    decreases n,
{
    if n > 0 && (path[n - 1] == SLASH) != slash {
        lemma_last_where(path, slash, n - 1);
    }
}

/// The name is not empty and has no slash, and directory and name put together again, with a slash between
/// them, are the path without the slashes at its end.
pub proof fn law_split(path: Seq<u8>)
    ensures
        split(path) matches Some((dir, name)) ==> {
            &&& name.len() > 0
            &&& !name.contains(SLASH)
            &&& exists|end: int|
                #![trigger path.take(end)]
                0 < end <= path.len() && (path.take(end) == dir.push(SLASH) + name || (dir.len() == 0 && path.take(end) == name))
        },
{
    lemma_last_where(path, false, path.len() as int);
    let end = last_where(path, false, path.len() as int) + 1;
    if end > 0 {
        lemma_last_where(path, true, end);
        let slash = last_where(path, true, end);
        let (dir, name) = split(path)->0;
        assert(!name.contains(SLASH)) by {
            if name.contains(SLASH) {
                let k = choose|k: int| 0 <= k < name.len() && name[k] == SLASH;
                assert(path[slash + 1 + k] == SLASH);
            }
        }
        assert(name.len() > 0) by {
            assert(path[end - 1] != SLASH);
        }
        if slash >= 0 {
            assert(path.take(end) =~= dir.push(SLASH) + name);
        } else {
            assert(path.take(end) =~= name);
        }
    }
}

fn find_last(path: &[u8], slash: bool, n: usize) -> (r: Option<usize>)
    requires
        n <= path@.len(),
    ensures
        match r {
            Some(k) => k == last_where(path@, slash, n as int) && k < n,
            None => last_where(path@, slash, n as int) == -1,
        },
{
    let mut i: usize = n;
    while i > 0
        invariant
            i <= n <= path@.len(),
            last_where(path@, slash, n as int) == last_where(path@, slash, i as int),
        decreases i,
    {
        if (path[i - 1] == SLASH) == slash {
            return Some(i - 1);
        }
        i -= 1;
    }
    None
}

/// A copy of the bytes from `from` up to `to`.
fn copied(path: &[u8], from: usize, to: usize) -> (r: Vec<u8>)
    requires
        from <= to <= path@.len(),
    ensures
        r@ == path@.subrange(from as int, to as int),
{
    let mut r: Vec<u8> = Vec::new();
    let mut i: usize = from;
    while i < to
        invariant
            from <= i <= to <= path@.len(),
            r@ == path@.subrange(from as int, i as int),
        decreases to - i,
    {
        r.push(path[i]);
        i += 1;
        assert(r@ =~= path@.subrange(from as int, i as int));
    }
    r
}

/// Splits a path into the directory and the name that it ends with.
pub fn split_path(path: &[u8]) -> (r: Option<(Vec<u8>, Vec<u8>)>)
    ensures
        match split(path@) {
            None => r is None,
            Some((dir, name)) => r matches Some(x) && x.0@ == dir && x.1@ == name,
        },
{
    let end: usize = match find_last(path, false, path.len()) {
        Some(last) => last + 1,
        None => {
            return None;
        },
    };
    match find_last(path, true, end) {
        Some(pos) => {
            let dir = copied(path, 0, pos);
            let name = copied(path, pos + 1, end);
            assert(dir@ =~= path@.take(pos as int));
            Some((dir, name))
        },
        None => {
            let dir = copied(path, 0, 0);
            let name = copied(path, 0, end);
            assert(dir@ =~= Seq::<u8>::empty());
            assert(name@ =~= path@.take(end as int));
            Some((dir, name))
        },
    }
}

} // verus!
