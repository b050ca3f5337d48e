use crate::bytes::bytes_eq;
use crate::dir::{kind_dir, kind_file, Dir, ItemView};
use crate::error::FsError;
use crate::fs::{System, NUM_INODES};
use crate::ops::is_dot_name;
use vstd::prelude::*;

verus! {

/// Whether an item is a child of kind `kind` that removal descends to: not `.` or `..`.
pub open spec fn qualifies(it: ItemView, kind: Seq<u8>) -> bool {
    !is_dot_name(it.name) && it.typ == kind
}

/// Whether the directory stored at `m` holds a child of kind `kind` at inode `j`.
pub open spec fn child_of(s: System, m: int, j: int, kind: Seq<u8>) -> bool {
    s.stored_items(m) matches Some(its) && exists|q: int|
        0 <= q < its.len() && qualifies(#[trigger] its[q], kind) && its[q].inode_pos == j
}

/// Whether the directory stored at `m` decodes and its children of kind `kind` are valid slots.
pub open spec fn children_ok(s: System, m: int, kind: Seq<u8>) -> bool {
    s.stored_items(m) matches Some(its) && forall|q: int|
        0 <= q < its.len() && qualifies(#[trigger] its[q], kind) ==> its[q].inode_pos < NUM_INODES
}

/// Whether `j` is reached from the directory `t` in at most `n` steps through `dir` children.
pub open spec fn dir_reach(s: System, t: int, j: int, n: nat) -> bool
    decreases n,
{
    if n == 0 {
        j == t
    } else {
        dir_reach(s, t, j, (n - 1) as nat) || exists|m: int|
            0 <= m < NUM_INODES && dir_reach(s, t, m, (n - 1) as nat) && #[trigger] child_of(
                s,
                m,
                j,
                kind_dir(),
            )
    }
}

/// The directories under `t`, `t` included: those reached through `dir` children. A path
/// that visits each of the `NUM_INODES` slots at most once has fewer steps than that.
pub open spec fn in_dir_tree(s: System, t: int, j: int) -> bool {
    dir_reach(s, t, j, NUM_INODES as nat)
}

/// The inodes that removing the directory `t` frees: its directories, and their `file` children.
pub open spec fn in_subtree(s: System, t: int, j: int) -> bool {
    in_dir_tree(s, t, j) || exists|m: int|
        0 <= m < NUM_INODES && in_dir_tree(s, t, m) && #[trigger] child_of(s, m, j, kind_file())
}

/// Whether every directory under `t` decodes and names only valid slots.
pub open spec fn subtree_sound(s: System, t: int) -> bool {
    forall|m: int|
        0 <= m < NUM_INODES && #[trigger] in_dir_tree(s, t, m) ==> children_ok(s, m, kind_dir())
            && children_ok(s, m, kind_file())
}

/// Reaching in fewer steps is reaching in more.
pub proof fn lemma_reach_grows(s: System, t: int, j: int, a: nat, b: nat)
    requires
        a <= b,
        dir_reach(s, t, j, a),
    ensures
        dir_reach(s, t, j, b),
    decreases b - a,
{
    if a < b {
        lemma_reach_grows(s, t, j, a, (b - 1) as nat);
    }
}

/// The children of kind `kind` of the directory stored at `m`, as marks over the slots.
fn children(s: &System, m: usize, kind: &[u8]) -> (r: Result<Vec<bool>, FsError>)
    requires
        s.wf(),
        m < NUM_INODES,
    ensures
        r is Ok <==> children_ok(*s, m as int, kind@),
        r matches Ok(c) ==> c@.len() == NUM_INODES && forall|j: int|
            0 <= j < NUM_INODES ==> #[trigger] c@[j] == child_of(*s, m as int, j, kind@),
        r is Err ==> r == Err::<Vec<bool>, FsError>(FsError::CorruptRecord),
{
    let data = s.read_inode_data(m);
    let d = match Dir::from_block_bytes(s.inodes[m].name.as_slice(), m, data.as_slice()) {
        Ok(d) => d,
        Err(e) => {
            return Err(e);
        },
    };
    let ghost its = s.stored_items(m as int).unwrap();
    let mut c: Vec<bool> = vec![false; NUM_INODES];
    let mut q: usize = 0;
    while q < d.items.len()
        invariant
            s.stored_items(m as int) == Some(its),
            its == crate::dir::view_items(d.items@),
            q <= d.items@.len(),
            c@.len() == NUM_INODES,
            forall|p: int| 0 <= p < q && qualifies(#[trigger] its[p], kind@) ==> its[p].inode_pos < NUM_INODES,
            forall|j: int|
                0 <= j < NUM_INODES ==> #[trigger] c@[j] == exists|p: int|
                    0 <= p < q && qualifies(#[trigger] its[p], kind@) && its[p].inode_pos == j,
        decreases d.items@.len() - q,
    {
        assert(its[q as int] == d.items@[q as int]@);
        let qual = !crate::ops::dot_name(d.items[q].name.as_slice()) && bytes_eq(
            d.items[q].typ.as_slice(),
            kind,
        );
        assert(qual == qualifies(its[q as int], kind@));
        if qual {
            let pos = d.items[q].inode_pos as usize;
            if pos >= NUM_INODES {
                assert(!children_ok(*s, m as int, kind@)) by {
                    assert(its[q as int].inode_pos == d.items@[q as int].inode_pos);
                    assert(qualifies(its[q as int], kind@) && its[q as int].inode_pos >= NUM_INODES);
                    if children_ok(*s, m as int, kind@) {
                        let its2 = s.stored_items(m as int).unwrap();
                        assert(its2 == its);
                        assert(qualifies(its2[q as int], kind@));
                    }
                }
                return Err(FsError::CorruptRecord);
            }
            let ghost c0 = c@;
            c.set(pos, true);
            assert forall|j: int| 0 <= j < NUM_INODES implies #[trigger] c@[j] == exists|p: int|
                0 <= p < q + 1 && qualifies(#[trigger] its[p], kind@) && its[p].inode_pos == j by {
                if j == pos {
                    assert(qualifies(its[q as int], kind@) && its[q as int].inode_pos == j);
                } else {
                    assert(c@[j] == c0[j]);
                    if exists|p: int| 0 <= p < q + 1 && qualifies(#[trigger] its[p], kind@) && its[p].inode_pos == j {
                        let p = choose|p: int| 0 <= p < q + 1 && qualifies(#[trigger] its[p], kind@) && its[p].inode_pos == j;
                        assert(p < q);
                    }
                }
            }
        } else {
            assert forall|j: int| 0 <= j < NUM_INODES implies #[trigger] c@[j] == exists|p: int|
                0 <= p < q + 1 && qualifies(#[trigger] its[p], kind@) && its[p].inode_pos == j by {
                if exists|p: int| 0 <= p < q + 1 && qualifies(#[trigger] its[p], kind@) && its[p].inode_pos == j {
                    let p = choose|p: int| 0 <= p < q + 1 && qualifies(#[trigger] its[p], kind@) && its[p].inode_pos == j;
                    assert(p < q);
                }
            }
        }
        q = q + 1;
    }
    Ok(c)
}

/// The slots that some marked directory holds as a child of kind `kind`.
fn expand(s: &System, marked: &Vec<bool>, kind: &[u8]) -> (r: Result<Vec<bool>, FsError>)
    requires
        s.wf(),
        marked@.len() == NUM_INODES,
    ensures
        r is Ok <==> forall|m: int| 0 <= m < NUM_INODES && #[trigger] marked@[m] ==> children_ok(*s, m, kind@),
        r matches Ok(nx) ==> nx@.len() == NUM_INODES && forall|j: int|
            0 <= j < NUM_INODES ==> #[trigger] nx@[j] == exists|m: int|
                0 <= m < NUM_INODES && marked@[m] && #[trigger] child_of(*s, m, j, kind@),
        r is Err ==> r == Err::<Vec<bool>, FsError>(FsError::CorruptRecord),
{
    let mut nx: Vec<bool> = vec![false; NUM_INODES];
    let mut m: usize = 0;
    while m < NUM_INODES
        invariant
            s.wf(),
            marked@.len() == NUM_INODES,
            m <= NUM_INODES,
            nx@.len() == NUM_INODES,
            forall|p: int| 0 <= p < m && #[trigger] marked@[p] ==> children_ok(*s, p, kind@),
            forall|j: int|
                0 <= j < NUM_INODES ==> #[trigger] nx@[j] == exists|p: int|
                    0 <= p < m && marked@[p] && #[trigger] child_of(*s, p, j, kind@),
        decreases NUM_INODES - m,
    {
        if marked[m] {
            let c = match children(s, m, kind) {
                Ok(c) => c,
                Err(e) => {
                    return Err(e);
                },
            };
            let ghost nx0 = nx@;
            let mut j: usize = 0;
            while j < NUM_INODES
                invariant
                    m < NUM_INODES,
                    marked@.len() == NUM_INODES,
                    marked@[m as int],
                    j <= NUM_INODES,
                    nx@.len() == NUM_INODES,
                    c@.len() == NUM_INODES,
                    forall|x: int| 0 <= x < NUM_INODES ==> #[trigger] c@[x] == child_of(*s, m as int, x, kind@),
                    forall|x: int| 0 <= x < j ==> #[trigger] nx@[x] == (nx0[x] || c@[x]),
                    forall|x: int| j <= x < NUM_INODES ==> #[trigger] nx@[x] == nx0[x],
                decreases NUM_INODES - j,
            {
                let v = nx[j] || c[j];
                nx.set(j, v);
                j = j + 1;
            }
            assert forall|x: int| 0 <= x < NUM_INODES implies #[trigger] nx@[x] == exists|p: int|
                0 <= p < m + 1 && marked@[p] && #[trigger] child_of(*s, p, x, kind@) by {
                if nx0[x] {
                    let p = choose|p: int| 0 <= p < m && marked@[p] && #[trigger] child_of(*s, p, x, kind@);
                    assert(0 <= p < m + 1 && marked@[p] && child_of(*s, p, x, kind@));
                } else if c@[x] {
                    assert(marked@[m as int] && child_of(*s, m as int, x, kind@));
                } else if exists|p: int| 0 <= p < m + 1 && marked@[p] && #[trigger] child_of(*s, p, x, kind@) {
                    let p = choose|p: int| 0 <= p < m + 1 && marked@[p] && #[trigger] child_of(*s, p, x, kind@);
                    assert(p < m);
                }
            }
        } else {
            assert forall|x: int| 0 <= x < NUM_INODES implies #[trigger] nx@[x] == exists|p: int|
                0 <= p < m + 1 && marked@[p] && #[trigger] child_of(*s, p, x, kind@) by {
                if exists|p: int| 0 <= p < m + 1 && marked@[p] && #[trigger] child_of(*s, p, x, kind@) {
                    let p = choose|p: int| 0 <= p < m + 1 && marked@[p] && #[trigger] child_of(*s, p, x, kind@);
                    assert(p < m);
                }
            }
        }
        m = m + 1;
    }
    Ok(nx)
}

/// The inodes that removing the directory `t` frees, as marks over the slots; an error where
/// a directory under `t` does not decode or names a slot out of range.
pub fn subtree_marks(s: &System, t: usize) -> (r: Result<Vec<bool>, FsError>)
    requires
        s.wf(),
        t < NUM_INODES,
    ensures
        r is Ok <==> subtree_sound(*s, t as int),
        r matches Ok(v) ==> v@.len() == NUM_INODES && forall|j: int|
            0 <= j < NUM_INODES ==> #[trigger] v@[j] == in_subtree(*s, t as int, j),
        r is Err ==> r == Err::<Vec<bool>, FsError>(FsError::CorruptRecord),
{
    let mut dirs: Vec<bool> = vec![false; NUM_INODES];
    dirs.set(t, true);
    let mut round: usize = 0;
    while round < NUM_INODES
        invariant
            s.wf(),
            t < NUM_INODES,
            round <= NUM_INODES,
            dirs@.len() == NUM_INODES,
            forall|j: int| 0 <= j < NUM_INODES ==> #[trigger] dirs@[j] == dir_reach(*s, t as int, j, round as nat),
        decreases NUM_INODES - round,
    {
        let nx = match expand(s, &dirs, dir_kind_bytes().as_slice()) {
            Ok(nx) => nx,
            Err(e) => {
                proof {
                    let m = choose|m: int| 0 <= m < NUM_INODES && #[trigger] dirs@[m] && !children_ok(*s, m, kind_dir());
                    lemma_reach_grows(*s, t as int, m, round as nat, NUM_INODES as nat);
                    assert(in_dir_tree(*s, t as int, m));
                }
                return Err(e);
            },
        };
        let ghost d0 = dirs@;
        let mut j: usize = 0;
        while j < NUM_INODES
            invariant
                dirs@.len() == NUM_INODES,
                nx@.len() == NUM_INODES,
                j <= NUM_INODES,
                forall|x: int| 0 <= x < j ==> #[trigger] dirs@[x] == (d0[x] || nx@[x]),
                forall|x: int| j <= x < NUM_INODES ==> #[trigger] dirs@[x] == d0[x],
            decreases NUM_INODES - j,
        {
            let v = dirs[j] || nx[j];
            dirs.set(j, v);
            j = j + 1;
        }
        assert forall|x: int| 0 <= x < NUM_INODES implies #[trigger] dirs@[x] == dir_reach(
            *s,
            t as int,
            x,
            (round + 1) as nat,
        ) by {
            assert(d0[x] == dir_reach(*s, t as int, x, round as nat));
            assert forall|m: int| 0 <= m < NUM_INODES implies #[trigger] d0[m] == dir_reach(*s, t as int, m, round as nat) by {}
        }
        round = round + 1;
    }
    assert(forall|m: int| 0 <= m < NUM_INODES ==> #[trigger] dirs@[m] == in_dir_tree(*s, t as int, m));
    let check = expand(s, &dirs, dir_kind_bytes().as_slice());
    if check.is_err() {
        proof {
            let m = choose|m: int| 0 <= m < NUM_INODES && #[trigger] dirs@[m] && !children_ok(*s, m, kind_dir());
            assert(in_dir_tree(*s, t as int, m));
        }
        return Err(FsError::CorruptRecord);
    }
    let files = match expand(s, &dirs, file_kind_bytes().as_slice()) {
        Ok(f) => f,
        Err(e) => {
            proof {
                let m = choose|m: int| 0 <= m < NUM_INODES && #[trigger] dirs@[m] && !children_ok(*s, m, kind_file());
                assert(in_dir_tree(*s, t as int, m));
            }
            return Err(e);
        },
    };
    assert forall|m: int| 0 <= m < NUM_INODES && #[trigger] in_dir_tree(*s, t as int, m) implies children_ok(
        *s,
        m,
        kind_dir(),
    ) && children_ok(*s, m, kind_file()) by {
        assert(dirs@[m]);
    }
    let mut v: Vec<bool> = vec![false; NUM_INODES];
    let mut j: usize = 0;
    while j < NUM_INODES
        invariant
            v@.len() == NUM_INODES,
            dirs@.len() == NUM_INODES,
            files@.len() == NUM_INODES,
            j <= NUM_INODES,
            forall|x: int| 0 <= x < j ==> #[trigger] v@[x] == (dirs@[x] || files@[x]),
        decreases NUM_INODES - j,
    {
        let b = dirs[j] || files[j];
        v.set(j, b);
        j = j + 1;
    }
    assert forall|x: int| 0 <= x < NUM_INODES implies #[trigger] v@[x] == in_subtree(*s, t as int, x) by {
        assert(dirs@[x] == in_dir_tree(*s, t as int, x));
        assert forall|m: int| 0 <= m < NUM_INODES implies #[trigger] dirs@[m] == in_dir_tree(*s, t as int, m) by {}
    }
    Ok(v)
}

/// The bytes `dir`.
fn dir_kind_bytes() -> (r: Vec<u8>)
    ensures
        r@ == kind_dir(),
{
    crate::dir::dir_kind()
}

/// The bytes `file`.
fn file_kind_bytes() -> (r: Vec<u8>)
    ensures
        r@ == kind_file(),
{
    crate::dir::file_kind()
}

} // verus!
