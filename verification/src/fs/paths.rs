//! What holds of resolving path names.

use crate::errno::{EACCES, EIO, ELOOP, ENOENT, ENOTDIR};
use crate::fs::ext2::inode::mode::type_bits;
use crate::fs::inode::NIL;
use crate::fs::namei::{
    any_state, comp_len, dir_len, dirs_did, follow_did, fs_lookup, last_part, last_start,
    link_target, lookup_did, lookup_from, may, namei_did, only_read, put_back, put_two, resolved,
    took_one, walk_did, NAME_MAX,
};
use crate::fs::{mode, Vfs, MAY_EXEC};
use vstd::prelude::*;

verus! {

// ---- the parts of a path ----

/// A part of a path: not empty, not too long, and without a slash.
pub open spec fn is_part(name: Seq<u8>) -> bool {
    0 < name.len() <= NAME_MAX && forall|i: int| 0 <= i < name.len() ==> #[trigger] name[i] != 47
}

/// The path that has these parts, with one slash between two of them.
pub open spec fn joined(names: Seq<Seq<u8>>) -> Seq<u8>
    decreases names.len(),
{
    if names.len() == 0 {
        Seq::empty()
    } else if names.len() == 1 {
        names[0]
    } else {
        names[0] + seq![47u8] + joined(names.skip(1))
    }
}

/// A step on the way from directory `cur`, to which a reference is held: the name is
/// looked up there, and what is found is followed where it is a symbolic link.
pub open spec fn step(v0: &Vfs, v: &Vfs, cur: usize, name: Seq<u8>, left: nat, r: Result<usize, i32>) -> bool {
    exists|v1: Vfs, next: usize|
        #[trigger] lookup_did(v0, &v1, cur, name, Ok(next)) && follow_did(&v1, v, cur, next, left, r)
}

/// Going from directory `cur` through the names one after the other ends in `to`.
pub open spec fn goes(v0: &Vfs, v: &Vfs, cur: usize, names: Seq<Seq<u8>>, left: nat, to: usize) -> bool
    decreases names.len(),
{
    if names.len() == 0 {
        to == cur && *v == *v0
    } else {
        exists|v1: Vfs, nx: usize|
            #[trigger] step(v0, &v1, cur, names[0], left, Ok(nx)) && goes(
                &v1,
                v,
                nx,
                names.skip(1),
                left,
                to,
            )
    }
}

proof fn lemma_joined_ends(names: Seq<Seq<u8>>)
    requires
        names.len() > 0,
        forall|k: int| 0 <= k < names.len() ==> is_part(#[trigger] names[k]),
    ensures
        ({
            let p = joined(names);
            let last = names.last();
            let o = p.len() - last.len();
            &&& p.len() > 0 && p[0] != 47
            &&& 0 <= o
            &&& p.skip(o) == last
            &&& names.len() == 1 ==> o == 0
            &&& names.len() > 1 ==> o >= 2 && p[o - 1] == 47
        }),
    decreases names.len(),
{
    let p = joined(names);
    assert(is_part(names[0]));
    if names.len() == 1 {
        assert(p.skip(0) =~= names.last());
    } else {
        let rest = names.skip(1);
        assert forall|k: int| 0 <= k < rest.len() implies is_part(#[trigger] rest[k]) by {
            assert(rest[k] == names[k + 1]);
        }
        lemma_joined_ends(rest);
        let q = joined(rest);
        let h = names[0].len() + 1;
        assert(p.len() == h + q.len());
        assert(rest.last() == names.last());
        let o = p.len() - names.last().len();
        assert forall|i: int| h <= i < p.len() implies p[i] == q[i - h] by {}
        assert(p.skip(o) =~= q.skip(o - h));
        assert(p[names[0].len() as int] == 47);
    }
}

proof fn lemma_last_start(path: Seq<u8>, o: int, n: int)
    requires
        0 <= o <= n <= path.len(),
        o == 0 || path[o - 1] == 47,
        forall|i: int| o <= i < n ==> path[i] != 47,
    ensures
        last_start(path, n) == o,
    decreases n,
{
    if n > o {
        lemma_last_start(path, o, n - 1);
    }
}

proof fn lemma_comp_len(path: Seq<u8>, i: int, e: int, n: int)
    requires
        0 <= i <= e <= n <= path.len(),
        e == n || path[e] == 47,
        forall|k: int| i <= k < e ==> path[k] != 47,
    ensures
        comp_len(path, i, n) == e - i,
    decreases e - i,
{
    if i < e {
        lemma_comp_len(path, i + 1, e, n);
    }
}

/// Walking through the directories of a path goes through all of its parts but the last.
#[verifier::spinoff_prover]
#[verifier::rlimit(40)]
proof fn lemma_walk(
    v0: &Vfs,
    v: &Vfs,
    path: Seq<u8>,
    i: int,
    n: int,
    cur: usize,
    left: nat,
    names: Seq<Seq<u8>>,
    to: usize,
)
    requires
        names.len() > 0,
        forall|k: int| 0 <= k < names.len() ==> is_part(#[trigger] names[k]),
        0 <= i <= path.len(),
        path.skip(i) == joined(names),
        names.len() == 1 ==> n <= i,
        names.len() > 1 ==> n == path.len() - names.last().len() - 1,
        walk_did(v0, v, path, i, n, cur, left, Ok(to)),
    ensures
        goes(v0, v, cur, names.drop_last(), left, to),
        type_bits(v.fs.inodes@[to as int].i_mode) == mode::S_IFDIR,
    decreases names.len(),
{
    let p = joined(names);
    let dirs = names.drop_last();
    if names.len() == 1 {
        assert(dirs.len() == 0);
    } else {
        let name = names[0];
        let rest = names.skip(1);
        let q = joined(rest);
        assert(is_part(names[0]));
        assert forall|k: int| 0 <= k < rest.len() implies is_part(#[trigger] rest[k]) by {
            assert(rest[k] == names[k + 1]);
        }
        lemma_joined_ends(rest);
        lemma_joined_ends(names);
        assert(rest.last() == names.last());
        let b = i + name.len();
        assert(p.len() == name.len() + 1 + q.len());
        assert(path.len() == i + p.len());
        assert forall|k: int| 0 <= k < p.len() implies #[trigger] path[i + k] == p[k] by {
            assert(path.skip(i)[k] == p[k]);
        }
        assert(path[i + 0] == name[0]);
        assert(path[i + name.len()] == 47) by {
            assert(p[name.len() as int] == 47);
        }
        assert(b <= n);
        assert forall|k: int| i + 1 <= k < b implies path[k] != 47 by {
            assert(path[i + (k - i)] == p[k - i]);
            assert(p[k - i] == name[k - i]);
        }
        lemma_comp_len(path, i + 1, b, n);
        assert(path.subrange(i, b) =~= name) by {
            assert forall|k: int| 0 <= k < name.len() implies path.subrange(i, b)[k] == name[k] by {
                assert(path[i + k] == p[k]);
            }
        }
        let r: Result<usize, i32> = Ok(to);
        let (v1, r1) = choose|v1: Vfs, r1: Result<usize, i32>|
            {
                &&& #[trigger] lookup_did(v0, &v1, cur, path.subrange(i, b), r1)
                &&& match r1 {
                    Err(e) => r == Err::<usize, i32>(e) && put_back(&v1, v, cur),
                    Ok(next) => exists|v2: Vfs, r2: Result<usize, i32>|
                        {
                            &&& #[trigger] any_state(&v2, r2)
                            &&& follow_did(&v1, &v2, cur, next, left, r2)
                            &&& match r2 {
                                Err(e) => r == Err::<usize, i32>(e) && *v == v2,
                                Ok(nx) => walk_did(&v2, v, path, b, n, nx, left, r),
                            }
                        },
                }
            };
        let next = r1->Ok_0;
        let (v2, r2) = choose|v2: Vfs, r2: Result<usize, i32>|
            {
                &&& #[trigger] any_state(&v2, r2)
                &&& follow_did(&v1, &v2, cur, next, left, r2)
                &&& match r2 {
                    Err(e) => r == Err::<usize, i32>(e) && *v == v2,
                    Ok(nx) => walk_did(&v2, v, path, b, n, nx, left, r),
                }
            };
        let nx = r2->Ok_0;
        assert(lookup_did(v0, &v1, cur, name, Ok(next)));
        assert(step(v0, &v2, cur, name, left, Ok(nx)));
        assert(path.skip(b + 1) =~= q) by {
            assert forall|k: int| 0 <= k < q.len() implies path[b + 1 + k] == q[k] by {
                assert(path[i + (name.len() + 1 + k)] == p[name.len() + 1 + k]);
            }
        }
        if rest.len() > 1 {
            assert(b < n);
            assert(walk_did(&v2, v, path, b + 1, n, nx, left, r));
        } else {
            assert(b == n);
            assert(walk_did(&v2, v, path, b + 1, n, nx, left, r));
        }
        lemma_walk(&v2, v, path, b + 1, n, nx, left, rest, to);
        assert(dirs[0] == name);
        assert(dirs.skip(1) =~= rest.drop_last());
    }
}

/// A path is resolved part by part: from where it starts, each part is looked up in the
/// directory that those before it lead to. The last one is looked up in the directory
/// that all the others lead to. One slash at the start makes no other part.
#[verifier::spinoff_prover]
#[verifier::rlimit(60)]
pub proof fn lemma_parts(
    v0: &Vfs,
    v: &Vfs,
    path: Seq<u8>,
    names: Seq<Seq<u8>>,
    start: usize,
    follow: bool,
    left: nat,
    n: usize,
)
    requires
        names.len() > 0,
        forall|k: int| 0 <= k < names.len() ==> is_part(#[trigger] names[k]),
        path == joined(names) || path == seq![47u8] + joined(names),
        namei_did(v0, v, path, start, follow, left, Ok(n)),
    ensures
        exists|v1: Vfs, v2: Vfs, dir: usize|
            {
                &&& #[trigger] took_one(v0, &v1, start)
                &&& #[trigger] goes(&v1, &v2, start, names.drop_last(), left, dir)
                &&& type_bits(v2.fs.inodes@[dir as int].i_mode) == mode::S_IFDIR
                &&& if follow {
                    step(&v2, v, dir, names.last(), left, Ok(n))
                } else {
                    exists|v3: Vfs|
                        #[trigger] lookup_did(&v2, &v3, dir, names.last(), Ok(n)) && put_back(&v3, v, dir)
                }
            },
{
    let p = joined(names);
    let r: Result<usize, i32> = Ok(n);
    lemma_joined_ends(names);
    assert(is_part(names[names.len() - 1]));
    let i = path.len() - p.len();
    assert(i == 0 || i == 1);
    assert(path.skip(i) =~= p);
    let last = names.last();
    let o = path.len() - last.len();
    assert forall|k: int| 0 <= k < p.len() implies #[trigger] path[i + k] == p[k] by {
        assert(path.skip(i)[k] == p[k]);
    }
    assert forall|k: int| o <= k < path.len() implies path[k] != 47 by {
        let m = k - o;
        assert(path[i + (k - i)] == p[k - i]);
        assert(p.skip(p.len() - last.len())[m] == last[m]);
    }
    if o > 0 {
        assert(path[o - 1] == 47) by {
            if names.len() > 1 {
                assert(path[i + (o - 1 - i)] == p[o - 1 - i]);
            }
        }
    }
    lemma_last_start(path, o, path.len() as int);
    assert(last_part(path) =~= last) by {
        assert forall|k: int| 0 <= k < last.len() implies path[o + k] == last[k] by {
            assert(path[i + (o + k - i)] == p[o + k - i]);
            assert(p.skip(p.len() - last.len())[k] == last[k]);
        }
    }
    let (v2, r1) = choose|v2: Vfs, r1: Result<usize, i32>|
        {
            &&& #[trigger] any_state(&v2, r1)
            &&& dirs_did(v0, &v2, path, start, left, r1)
            &&& match r1 {
                Err(e) => r == Err::<usize, i32>(e) && *v == v2,
                Ok(dir) => if last_part(path).len() == 0 {
                    r == Ok::<usize, i32>(dir) && *v == v2
                } else {
                    exists|v3: Vfs, r2: Result<usize, i32>|
                        {
                            &&& #[trigger] lookup_did(&v2, &v3, dir, last_part(path), r2)
                            &&& match r2 {
                                Err(e) => r == Err::<usize, i32>(e) && put_back(&v3, v, dir),
                                Ok(n) => if follow {
                                    follow_did(&v3, v, dir, n, left, r)
                                } else {
                                    r == Ok::<usize, i32>(n) && put_back(&v3, v, dir)
                                },
                            }
                        }
                },
            }
        };
    let dir = r1->Ok_0;
    let v1 = choose|v1: Vfs|
        {
            &&& #[trigger] took_one(v0, &v1, start)
            &&& walk_did(&v1, &v2, path, 0, dir_len(path), start, left, r1)
        };
    let m = dir_len(path);
    if i == 1 && names.len() > 1 {
        assert(m > 0);
        assert(path[0] == 47);
        assert(walk_did(&v1, &v2, path, 1, m, start, left, r1));
        lemma_walk(&v1, &v2, path, 1, m, start, left, names, dir);
    } else if i == 1 {
        assert(m == 0);
        assert(walk_did(&v1, &v2, path, 1, m, start, left, r1));
        lemma_walk(&v1, &v2, path, 1, m, start, left, names, dir);
    } else {
        lemma_walk(&v1, &v2, path, 0, m, start, left, names, dir);
    }
    let (v3, r2) = choose|v3: Vfs, r2: Result<usize, i32>|
        {
            &&& #[trigger] lookup_did(&v2, &v3, dir, last_part(path), r2)
            &&& match r2 {
                Err(e) => r == Err::<usize, i32>(e) && put_back(&v3, v, dir),
                Ok(n) => if follow {
                    follow_did(&v3, v, dir, n, left, r)
                } else {
                    r == Ok::<usize, i32>(n) && put_back(&v3, v, dir)
                },
            }
        };
    assert(lookup_did(&v2, &v3, dir, last, Ok(r2->Ok_0)));
    if follow {
        assert(step(&v2, v, dir, last, left, Ok(n)));
    }
    assert(took_one(v0, &v1, start) && goes(&v1, &v2, start, names.drop_last(), left, dir));
}

/// A path of one part is looked up where it starts, and the answer is what that gives:
/// the error, or what is found, followed where it is a link.
pub proof fn lemma_one_part(v0: &Vfs, v: &Vfs, name: Seq<u8>, start: usize, left: nat, r: Result<usize, i32>)
    requires
        is_part(name),
        namei_did(v0, v, name, start, true, left, r),
        type_bits(v0.fs.inodes@[start as int].i_mode) == mode::S_IFDIR,
        v0.fs.inodes@.len() == 64,
        start < 64,
    ensures
        exists|v1: Vfs, v2: Vfs, found: Result<usize, i32>|
            {
                &&& #[trigger] took_one(v0, &v1, start)
                &&& #[trigger] lookup_did(&v1, &v2, start, name, found)
                &&& match found {
                    Err(e) => r == Err::<usize, i32>(e) && put_back(&v2, v, start),
                    Ok(n) => if type_bits(v2.fs.inodes@[n as int].i_mode) == mode::S_IFLNK {
                        follow_did(&v2, v, start, n, left, r)
                    } else {
                        r == Ok::<usize, i32>(n) && put_back(&v2, v, start)
                    },
                }
            },
{
    lemma_last_start(name, 0, name.len() as int);
    assert(last_part(name) =~= name);
    assert(dir_len(name) == 0);
    let (v1, r1) = choose|v1: Vfs, r1: Result<usize, i32>|
        {
            &&& #[trigger] any_state(&v1, r1)
            &&& dirs_did(v0, &v1, name, start, left, r1)
            &&& match r1 {
                Err(e) => r == Err::<usize, i32>(e) && *v == v1,
                Ok(dir) => exists|v2: Vfs, r2: Result<usize, i32>|
                    {
                        &&& #[trigger] lookup_did(&v1, &v2, dir, name, r2)
                        &&& match r2 {
                            Err(e) => r == Err::<usize, i32>(e) && put_back(&v2, v, dir),
                            Ok(n) => follow_did(&v2, v, dir, n, left, r),
                        }
                    },
            }
        };
    let va = choose|va: Vfs|
        {
            &&& #[trigger] took_one(v0, &va, start)
            &&& walk_did(&va, &v1, name, 0, 0, start, left, r1)
        };
    assert(va.fs.inodes@[start as int].i_mode == v0.fs.inodes@[start as int].i_mode);
    assert(r1 == Ok::<usize, i32>(start) && v1 == va);
    let (v2, r2) = choose|v2: Vfs, r2: Result<usize, i32>|
        {
            &&& #[trigger] lookup_did(&v1, &v2, start, name, r2)
            &&& match r2 {
                Err(e) => r == Err::<usize, i32>(e) && put_back(&v2, v, start),
                Ok(n) => follow_did(&v2, v, start, n, left, r),
            }
        };
    assert(took_one(v0, &v1, start) && lookup_did(&v1, &v2, start, name, r2));
}

// ---- symbolic links ----

/// Resolving path `t`, started in directory `start`, and with so many links more that may
/// be followed, gives `r`.
pub open spec fn resolves(v0: &Vfs, v: &Vfs, t: Seq<u8>, start: usize, left: int, r: Result<usize, i32>) -> bool {
    left >= 0 && namei_did(v0, v, t, start, true, left as nat, r)
}

/// What following a link to a relative path gives is what resolving that path gives,
/// started in the directory that holds the link. The references to the directory and to
/// the link are then given back.
pub proof fn lemma_relative_link(
    v0: &Vfs,
    v: &Vfs,
    dir: usize,
    n: usize,
    t: Seq<u8>,
    left: nat,
    r: Result<usize, i32>,
)
    requires
        follow_did(v0, v, dir, n, left, r),
        left > 0,
        type_bits(v0.fs.inodes@[n as int].i_mode) == mode::S_IFLNK,
        link_target(&v0.fs, n) == Some(t),
        t.len() == 0 || t[0] != 47,
    ensures
        exists|v1: Vfs, v2: Vfs|
            {
                &&& #[trigger] only_read(v0, &v1)
                &&& #[trigger] resolves(&v1, &v2, t, dir, left - 1, r)
                &&& put_two(&v2, v, dir, n)
            },
{
    let v1 = choose|v1: Vfs|
        {
            &&& #[trigger] only_read(v0, &v1)
            &&& exists|v2: Vfs|
                {
                    &&& #[trigger] any_state(&v2, r)
                    &&& namei_did(&v1, &v2, t, dir, true, (left - 1) as nat, r)
                    &&& put_two(&v2, v, dir, n)
                }
        };
    let v2 = choose|v2: Vfs|
        {
            &&& #[trigger] any_state(&v2, r)
            &&& namei_did(&v1, &v2, t, dir, true, (left - 1) as nat, r)
            &&& put_two(&v2, v, dir, n)
        };
    assert(only_read(v0, &v1) && resolves(&v1, &v2, t, dir, left - 1, r));
}

/// What following a link to one name gives is what looking that name up in the directory
/// that holds the link gives, whatever the root directory is.
pub proof fn lemma_link_beside(
    v0: &Vfs,
    v: &Vfs,
    dir: usize,
    n: usize,
    t: Seq<u8>,
    left: nat,
    r: Result<usize, i32>,
)
    requires
        follow_did(v0, v, dir, n, left, r),
        left > 0,
        v0.fs.inodes@.len() == 64,
        dir < 64,
        type_bits(v0.fs.inodes@[dir as int].i_mode) == mode::S_IFDIR,
        type_bits(v0.fs.inodes@[n as int].i_mode) == mode::S_IFLNK,
        link_target(&v0.fs, n) == Some(t),
        is_part(t),
    ensures
        exists|v1: Vfs, v2: Vfs, v3: Vfs, found: Result<usize, i32>|
            {
                &&& #[trigger] only_read(v0, &v1)
                &&& #[trigger] took_one(&v1, &v2, dir)
                &&& #[trigger] lookup_did(&v2, &v3, dir, t, found)
                &&& found is Err ==> r == found
                &&& found is Ok && type_bits(v3.fs.inodes@[found->Ok_0 as int].i_mode) != mode::S_IFLNK
                    ==> r == found
                &&& found is Ok && type_bits(v3.fs.inodes@[found->Ok_0 as int].i_mode) == mode::S_IFLNK
                    && left == 1 ==> r == Err::<usize, i32>(ELOOP)
            },
{
    lemma_relative_link(v0, v, dir, n, t, left, r);
    let (v1, w) = choose|v1: Vfs, v2: Vfs|
        {
            &&& #[trigger] only_read(v0, &v1)
            &&& #[trigger] resolves(&v1, &v2, t, dir, left - 1, r)
            &&& put_two(&v2, v, dir, n)
        };
    lemma_one_part(&v1, &w, t, dir, (left - 1) as nat, r);
    let (v2, v3, found) = choose|v2: Vfs, v3: Vfs, found: Result<usize, i32>|
        {
            &&& #[trigger] took_one(&v1, &v2, dir)
            &&& #[trigger] lookup_did(&v2, &v3, dir, t, found)
            &&& match found {
                Err(e) => r == Err::<usize, i32>(e) && put_back(&v3, &w, dir),
                Ok(m) => if type_bits(v3.fs.inodes@[m as int].i_mode) == mode::S_IFLNK {
                    follow_did(&v3, &w, dir, m, (left - 1) as nat, r)
                } else {
                    r == Ok::<usize, i32>(m) && put_back(&v3, &w, dir)
                },
            }
        };
    assert(only_read(v0, &v1) && took_one(&v1, &v2, dir) && lookup_did(&v2, &v3, dir, t, found));
}

/// What following a link to a path that begins with a slash gives is what resolving it
/// gives, started in the root directory; where there is none, nothing is found.
pub proof fn lemma_absolute_link(
    v0: &Vfs,
    v: &Vfs,
    dir: usize,
    n: usize,
    t: Seq<u8>,
    left: nat,
    r: Result<usize, i32>,
)
    requires
        follow_did(v0, v, dir, n, left, r),
        left > 0,
        type_bits(v0.fs.inodes@[n as int].i_mode) == mode::S_IFLNK,
        link_target(&v0.fs, n) == Some(t),
        t.len() > 0,
        t[0] == 47,
    ensures
        v0.fs.root_inode == NIL ==> r == Err::<usize, i32>(ENOENT),
        v0.fs.root_inode != NIL ==> exists|v1: Vfs, v2: Vfs, v3: Vfs|
            {
                &&& #[trigger] only_read(v0, &v1)
                &&& #[trigger] put_back(&v1, &v2, dir)
                &&& #[trigger] resolves(&v2, &v3, t, v0.fs.root_inode, left - 1, r)
                &&& put_back(&v3, v, n)
            },
{
    let root = v0.fs.root_inode;
    let v1 = choose|v1: Vfs|
        {
            &&& #[trigger] only_read(v0, &v1)
            &&& exists|v2: Vfs, v3: Vfs|
                {
                    &&& #[trigger] put_back(&v1, &v2, dir)
                    &&& if root == NIL {
                        r == Err::<usize, i32>(ENOENT) && v3 == v2
                    } else {
                        namei_did(&v2, &v3, t, root, true, (left - 1) as nat, r)
                    }
                    &&& #[trigger] put_back(&v3, v, n)
                }
        };
    let (v2, v3) = choose|v2: Vfs, v3: Vfs|
        {
            &&& #[trigger] put_back(&v1, &v2, dir)
            &&& if root == NIL {
                r == Err::<usize, i32>(ENOENT) && v3 == v2
            } else {
                namei_did(&v2, &v3, t, root, true, (left - 1) as nat, r)
            }
            &&& #[trigger] put_back(&v3, v, n)
        };
    if root != NIL {
        assert(only_read(v0, &v1) && put_back(&v1, &v2, dir) && resolves(
            &v2,
            &v3,
            t,
            root,
            left - 1,
            r,
        ));
    }
}

/// What is no link is its own end, and only the reference to the directory is given back;
/// a link where no more may be followed is an error, however it reads, and so is one that
/// cannot be read.
pub proof fn lemma_follow_ends(v0: &Vfs, v: &Vfs, dir: usize, n: usize, left: nat, r: Result<usize, i32>)
    requires
        follow_did(v0, v, dir, n, left, r),
    ensures
        type_bits(v0.fs.inodes@[n as int].i_mode) != mode::S_IFLNK ==> r == Ok::<usize, i32>(n) && put_back(
            v0,
            v,
            dir,
        ),
        type_bits(v0.fs.inodes@[n as int].i_mode) == mode::S_IFLNK && left == 0 ==> r == Err::<
            usize,
            i32,
        >(ELOOP) && put_two(v0, v, dir, n),
        type_bits(v0.fs.inodes@[n as int].i_mode) == mode::S_IFLNK && left > 0 && link_target(&v0.fs, n) is None
            ==> r == Err::<usize, i32>(EIO),
{
}

// ---- one name ----

/// From the root of a mounted file system the way up goes from the directory that it is
/// mounted on.
pub proof fn lemma_up_from_mount(v0: &Vfs, v: &Vfs, dir: usize, on: usize, r: Result<usize, i32>)
    requires
        lookup_did(v0, v, dir, seq![46u8, 46u8], r),
        type_bits(v0.fs.inodes@[dir as int].i_mode) == mode::S_IFDIR,
        type_bits(v0.fs.inodes@[on as int].i_mode) == mode::S_IFDIR,
        dir != v0.fs.root_inode,
        ({
            let sb = v0.fs.inodes@[dir as int].i_sb;
            &&& sb != NIL
            &&& v0.fs.supers@[sb as int].s_mounted == dir
            &&& v0.fs.supers@[sb as int].s_covered == on
            &&& on != NIL && on != dir
        }),
        ({
            let sb = v0.fs.inodes@[on as int].i_sb;
            sb == NIL || v0.fs.supers@[sb as int].s_mounted != on
        }),
    ensures
        on == v0.fs.root_inode ==> r == Ok::<usize, i32>(on),
        on != v0.fs.root_inode && may(&v0.fs, v0.fs.inodes@[on as int], MAY_EXEC) ==> fs_lookup(
            v0,
            v,
            on,
            seq![46u8, 46u8],
            r,
        ),
{
    let up = seq![46u8, 46u8];
    assert(up.len() == 2);
    assert(up != seq![46u8]) by {
        assert(seq![46u8].len() == 1);
    }
    assert(lookup_from(v0, v, on, up, r, 3));
}

/// Any other name is looked up by the file system of the directory, if that may be
/// searched. What is no directory holds no names.
pub proof fn lemma_plain_lookup(v0: &Vfs, v: &Vfs, dir: usize, name: Seq<u8>, r: Result<usize, i32>)
    requires
        lookup_did(v0, v, dir, name, r),
        name.len() > 0,
        name != seq![46u8],
        name != seq![46u8, 46u8],
    ensures
        ({
            let i = v0.fs.inodes@[dir as int];
            if type_bits(i.i_mode) != mode::S_IFDIR {
                r == Err::<usize, i32>(ENOTDIR) && *v == *v0
            } else if !may(&v0.fs, i, MAY_EXEC) {
                r == Err::<usize, i32>(EACCES) && *v == *v0
            } else {
                fs_lookup(v0, v, dir, name, r)
            }
        }),
{
}

// ---- where paths start ----

/// A path that begins with a slash is resolved from the root directory on.
pub proof fn lemma_from_root(v0: &Vfs, v: &Vfs, names: Seq<Seq<u8>>, follow: bool, n: usize)
    requires
        names.len() > 0,
        forall|k: int| 0 <= k < names.len() ==> is_part(#[trigger] names[k]),
        resolved(v0, v, seq![47u8] + joined(names), follow, Ok(n)),
    ensures
        v0.fs.root_inode != NIL,
        exists|v1: Vfs, v2: Vfs, dir: usize|
            {
                &&& #[trigger] took_one(v0, &v1, v0.fs.root_inode)
                &&& #[trigger] goes(&v1, &v2, v0.fs.root_inode, names.drop_last(), 6, dir)
                &&& if follow {
                    step(&v2, v, dir, names.last(), 6, Ok(n))
                } else {
                    exists|v3: Vfs|
                        #[trigger] lookup_did(&v2, &v3, dir, names.last(), Ok(n)) && put_back(&v3, v, dir)
                }
            },
{
    let path = seq![47u8] + joined(names);
    assert(path[0] == 47);
    lemma_parts(v0, v, path, names, v0.fs.root_inode, follow, 6, n);
}

/// Any other path is resolved from the working directory on.
pub proof fn lemma_from_working(v0: &Vfs, v: &Vfs, names: Seq<Seq<u8>>, follow: bool, n: usize)
    requires
        names.len() > 0,
        forall|k: int| 0 <= k < names.len() ==> is_part(#[trigger] names[k]),
        resolved(v0, v, joined(names), follow, Ok(n)),
    ensures
        v0.fs.pwd_inode != NIL,
        exists|v1: Vfs, v2: Vfs, dir: usize|
            {
                &&& #[trigger] took_one(v0, &v1, v0.fs.pwd_inode)
                &&& #[trigger] goes(&v1, &v2, v0.fs.pwd_inode, names.drop_last(), 6, dir)
                &&& if follow {
                    step(&v2, v, dir, names.last(), 6, Ok(n))
                } else {
                    exists|v3: Vfs|
                        #[trigger] lookup_did(&v2, &v3, dir, names.last(), Ok(n)) && put_back(&v3, v, dir)
                }
            },
{
    lemma_joined_ends(names);
    lemma_parts(v0, v, joined(names), names, v0.fs.pwd_inode, follow, 6, n);
}

/// A directory that a part leads through has to be one that may be searched.
pub proof fn lemma_searched(v0: &Vfs, v: &Vfs, cur: usize, name: Seq<u8>, left: nat, r: Result<usize, i32>)
    requires
        step(v0, v, cur, name, left, r),
        name.len() > 0,
        name != seq![46u8],
        name != seq![46u8, 46u8],
    ensures
        type_bits(v0.fs.inodes@[cur as int].i_mode) == mode::S_IFDIR,
        may(&v0.fs, v0.fs.inodes@[cur as int], MAY_EXEC),
{
}

/// Two parts of a path: the first is looked up where it starts. Where that fails, so does
/// the path, with the same error; where it finds a link and none may be followed, that is
/// an error too.
#[verifier::spinoff_prover]
#[verifier::rlimit(40)]
pub proof fn lemma_no_way(v0: &Vfs, v: &Vfs, a: Seq<u8>, b: Seq<u8>, start: usize, left: nat, r: Result<usize, i32>)
    requires
        is_part(a),
        is_part(b),
        namei_did(v0, v, a + seq![47u8] + b, start, true, left, r),
        v0.fs.inodes@.len() == 64,
        start < 64,
        type_bits(v0.fs.inodes@[start as int].i_mode) == mode::S_IFDIR,
        forall|v1: Vfs|
            #[trigger] took_one(v0, &v1, start) ==> may(&v1.fs, v1.fs.inodes@[start as int], MAY_EXEC),
    ensures
        exists|v1: Vfs, v2: Vfs, found: Result<usize, i32>|
            {
                &&& #[trigger] took_one(v0, &v1, start)
                &&& #[trigger] lookup_did(&v1, &v2, start, a, found)
                &&& found is Err ==> r == found
                &&& found is Ok && type_bits(v2.fs.inodes@[found->Ok_0 as int].i_mode) == mode::S_IFLNK
                    && left == 0 ==> r == Err::<usize, i32>(ELOOP)
            },
{
    let path = a + seq![47u8] + b;
    let n = a.len() as int;
    assert(path[n] == 47);
    assert forall|k: int| n + 1 <= k < path.len() implies path[k] != 47 by {
        assert(path[k] == b[k - n - 1]);
    }
    lemma_last_start(path, n + 1, path.len() as int);
    assert(dir_len(path) == n);
    assert(last_part(path) =~= b);
    let (v9, r1) = choose|v9: Vfs, r1: Result<usize, i32>|
        {
            &&& #[trigger] any_state(&v9, r1)
            &&& dirs_did(v0, &v9, path, start, left, r1)
            &&& match r1 {
                Err(e) => r == Err::<usize, i32>(e) && *v == v9,
                Ok(dir) => exists|w: Vfs, r2: Result<usize, i32>|
                    {
                        &&& #[trigger] lookup_did(&v9, &w, dir, b, r2)
                        &&& match r2 {
                            Err(e) => r == Err::<usize, i32>(e) && put_back(&w, v, dir),
                            Ok(m) => follow_did(&w, v, dir, m, left, r),
                        }
                    },
            }
        };
    let v1 = choose|v1: Vfs|
        {
            &&& #[trigger] took_one(v0, &v1, start)
            &&& walk_did(&v1, &v9, path, 0, n, start, left, r1)
        };
    assert(path[0] == a[0]);
    assert forall|k: int| 1 <= k < n implies path[k] != 47 by {
        assert(path[k] == a[k]);
    }
    lemma_comp_len(path, 1, n, n);
    assert(path.subrange(0, n) =~= a);
    assert(type_bits(v1.fs.inodes@[start as int].i_mode) == mode::S_IFDIR);
    let (v2, found) = choose|v2: Vfs, found: Result<usize, i32>|
        {
            &&& #[trigger] lookup_did(&v1, &v2, start, a, found)
            &&& match found {
                Err(e) => r1 == Err::<usize, i32>(e) && put_back(&v2, &v9, start),
                Ok(next) => exists|w: Vfs, r2: Result<usize, i32>|
                    {
                        &&& #[trigger] any_state(&w, r2)
                        &&& follow_did(&v2, &w, start, next, left, r2)
                        &&& match r2 {
                            Err(e) => r1 == Err::<usize, i32>(e) && v9 == w,
                            Ok(nx) => walk_did(&w, &v9, path, n, n, nx, left, r1),
                        }
                    },
            }
        };
    assert(took_one(v0, &v1, start) && lookup_did(&v1, &v2, start, a, found));
}

/// Walking on from what is no directory is refused.
pub proof fn lemma_not_through(v0: &Vfs, v: &Vfs, path: Seq<u8>, i: int, n: int, cur: usize, left: nat, r: Result<usize, i32>)
    requires
        walk_did(v0, v, path, i, n, cur, left, r),
        0 <= i <= n <= path.len(),
        type_bits(v0.fs.inodes@[cur as int].i_mode) != mode::S_IFDIR,
        forall|k: int| i <= k < n ==> comp_len(path, #[trigger] (k + 1), n) < NAME_MAX,
    ensures
        r == Err::<usize, i32>(ENOTDIR),
        put_back(v0, v, cur),
    decreases n - i,
{
    if i < n && path[i] == 47 {
        lemma_not_through(v0, v, path, i + 1, n, cur, left, r);
    } else if i < n {
        assert(comp_len(path, i + 1, n) < NAME_MAX);
    }
}

} // verus!
