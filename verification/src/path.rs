//! Resolving a requested path against the served directory, and the
//! extension of a file name.

use vstd::prelude::*;
use crate::bytes::{lemma_last_index_of_before, bytes_eq, concat, last_index_of, last_index_of_byte, slice_bytes};

verus! {

/// The bytes of ".".
pub open spec fn dot() -> Seq<u8> {
    seq![46u8]
}

/// The bytes of "..".
pub open spec fn dot_dot() -> Seq<u8> {
    seq![46u8, 46u8]
}

/// The component stack after reading component `c`: empty and "."
/// components change nothing, ".." drops the last component (and stays at
/// the root), any other name is added.
pub open spec fn step(stack: Seq<Seq<u8>>, c: Seq<u8>) -> Seq<Seq<u8>> {
    if c.len() == 0 || c == dot() {
        stack
    } else if c == dot_dot() {
        if stack.len() > 0 {
            stack.drop_last()
        } else {
            stack
        }
    } else {
        stack.push(c)
    }
}

/// The component stack after reading `p` from index `i`, given the stack
/// so far and the bytes of the component being read.
pub open spec fn scan(p: Seq<u8>, i: int, stack: Seq<Seq<u8>>, cur: Seq<u8>) -> Seq<Seq<u8>>
    decreases p.len() - i,
{
    if i >= p.len() {
        step(stack, cur)
    } else if p[i] == 47u8 {
        scan(p, i + 1, step(stack, cur), Seq::empty())
    } else {
        scan(p, i + 1, stack, cur.push(p[i]))
    }
}

/// The components of `p` once "." and ".." are resolved.
pub open spec fn components(p: Seq<u8>) -> Seq<Seq<u8>> {
    scan(p, 0, Seq::empty(), Seq::empty())
}

/// "/c1/c2/.../cn" for the components `cs`; empty for none.
pub open spec fn join_components(cs: Seq<Seq<u8>>) -> Seq<u8>
    decreases cs.len(),
{
    if cs.len() == 0 {
        Seq::empty()
    } else {
        join_components(cs.drop_last()) + seq![47u8] + cs.last()
    }
}

/// The absolute path with components `cs`.
pub open spec fn render(cs: Seq<Seq<u8>>) -> Seq<u8> {
    if cs.len() == 0 {
        seq![47u8]
    } else {
        join_components(cs)
    }
}

/// `p` read as an absolute path, with "." and ".." resolved and repeated
/// slashes collapsed.
pub open spec fn normalize(p: Seq<u8>) -> Seq<u8> {
    render(components(p))
}

/// The path `rel` names inside the directory `dir`.
pub open spec fn resolve(dir: Seq<u8>, rel: Seq<u8>) -> Seq<u8> {
    normalize(dir + seq![47u8] + rel)
}

/// A component of a resolved path: a non-empty name other than "." and
/// "..", without a slash.
pub open spec fn proper_component(c: Seq<u8>) -> bool {
    &&& c.len() > 0
    &&& c != dot()
    &&& c != dot_dot()
    &&& forall|k: int| 0 <= k < c.len() ==> c[k] != 47u8
}

fn step_exec(stack: &mut Vec<Vec<u8>>, cur: Vec<u8>)
    ensures
        final(stack)@.map_values(|v: Vec<u8>| v@) == step(
            old(stack)@.map_values(|v: Vec<u8>| v@),
            cur@,
        ),
{
    let ghost before = old(stack)@.map_values(|v: Vec<u8>| v@);
    let d: Vec<u8> = vec![46u8];
    let dd: Vec<u8> = vec![46u8, 46u8];
    assert(d@ =~= dot());
    assert(dd@ =~= dot_dot());
    if cur.len() == 0 || bytes_eq(&cur, &d) {
    } else if bytes_eq(&cur, &dd) {
        if stack.len() > 0 {
            stack.pop();
            assert(stack@.map_values(|v: Vec<u8>| v@) =~= before.drop_last());
        }
    } else {
        let ghost c = cur@;
        stack.push(cur);
        assert(stack@.map_values(|v: Vec<u8>| v@) =~= before.push(c));
    }
}

/// The components of `p` once "." and ".." are resolved.
pub fn components_of(p: &Vec<u8>) -> (r: Vec<Vec<u8>>)
    ensures
        r@.map_values(|v: Vec<u8>| v@) == components(p@),
{
    let mut stack: Vec<Vec<u8>> = Vec::new();
    let mut cur: Vec<u8> = Vec::new();
    let mut i: usize = 0;
    assert(stack@.map_values(|v: Vec<u8>| v@) =~= Seq::<Seq<u8>>::empty());
    assert(cur@ =~= Seq::<u8>::empty());
    while i < p.len()
        invariant
            i <= p.len(),
            scan(p@, i as int, stack@.map_values(|v: Vec<u8>| v@), cur@) == components(p@),
        decreases p.len() - i,
    {
        if p[i] == 47u8 {
            step_exec(&mut stack, cur);
            cur = Vec::new();
            assert(cur@ =~= Seq::<u8>::empty());
        } else {
            cur.push(p[i]);
        }
        i = i + 1;
    }
    step_exec(&mut stack, cur);
    stack
}

/// "/c1/c2/.../cn" for the components `cs`.
pub fn render_components(cs: &Vec<Vec<u8>>) -> (r: Vec<u8>)
    ensures
        r@ == render(cs@.map_values(|v: Vec<u8>| v@)),
{
    let ghost views = cs@.map_values(|v: Vec<u8>| v@);
    if cs.len() == 0 {
        let r: Vec<u8> = vec![47u8];
        assert(r@ =~= seq![47u8]);
        return r;
    }
    let mut r: Vec<u8> = Vec::new();
    let mut i: usize = 0;
    assert(views.subrange(0, 0) =~= Seq::<Seq<u8>>::empty());
    while i < cs.len()
        invariant
            i <= cs.len(),
            views == cs@.map_values(|v: Vec<u8>| v@),
            r@ == join_components(views.subrange(0, i as int)),
        decreases cs.len() - i,
    {
        r.push(47u8);
        crate::bytes::append_bytes(&mut r, &cs[i]);
        let ghost next = views.subrange(0, i + 1);
        assert(next.drop_last() =~= views.subrange(0, i as int));
        assert(next.last() == cs@[i as int]@);
        i = i + 1;
    }
    assert(views.subrange(0, cs.len() as int) =~= views);
    r
}

/// `p` read as an absolute path, with "." and ".." resolved.
pub fn normalize_path(p: &Vec<u8>) -> (r: Vec<u8>)
    ensures
        r@ == normalize(p@),
{
    let cs = components_of(p);
    render_components(&cs)
}

/// The path `rel` names inside the directory `dir`.
pub fn resolve_path(dir: &Vec<u8>, rel: &Vec<u8>) -> (r: Vec<u8>)
    ensures
        r@ == resolve(dir@, rel@),
{
    let slash: Vec<u8> = vec![47u8];
    let joined = concat(&concat(dir, &slash), rel);
    assert(slash@ =~= seq![47u8]);
    normalize_path(&joined)
}

proof fn lemma_scan_proper(p: Seq<u8>, i: int, stack: Seq<Seq<u8>>, cur: Seq<u8>)
    requires
        0 <= i,
        forall|j: int| 0 <= j < stack.len() ==> proper_component(#[trigger] stack[j]),
        forall|k: int| 0 <= k < cur.len() ==> cur[k] != 47u8,
    ensures
        forall|j: int|
            0 <= j < scan(p, i, stack, cur).len() ==> proper_component(
                #[trigger] scan(p, i, stack, cur)[j],
            ),
    decreases p.len() - i,
{
    let st = step(stack, cur);
    assert forall|j: int| 0 <= j < st.len() implies proper_component(#[trigger] st[j]) by {
        if cur.len() == 0 || cur == dot() {
        } else if cur == dot_dot() {
            if stack.len() > 0 {
                assert(st[j] == stack[j]);
            }
        } else {
            if j < stack.len() {
                assert(st[j] == stack[j]);
            }
        }
    }
    if i >= p.len() {
        assert(scan(p, i, stack, cur) == st);
    } else if p[i] == 47u8 {
        lemma_scan_proper(p, i + 1, st, Seq::empty());
        assert(scan(p, i, stack, cur) == scan(p, i + 1, st, Seq::empty()));
    } else {
        let c2 = cur.push(p[i]);
        assert forall|k: int| 0 <= k < c2.len() implies c2[k] != 47u8 by {
            if k < cur.len() {
                assert(c2[k] == cur[k]);
            }
        }
        lemma_scan_proper(p, i + 1, stack, c2);
        assert(scan(p, i, stack, cur) == scan(p, i + 1, stack, c2));
    }
}

/// A resolved path is absolute and every component in it is a proper name:
/// no "." or ".." is left, so nothing in it climbs back up the tree.
pub proof fn law_resolved_components_proper(p: Seq<u8>)
    ensures
        forall|j: int|
            0 <= j < components(p).len() ==> proper_component(#[trigger] components(p)[j]),
        normalize(p).len() > 0,
        normalize(p)[0] == 47u8,
{
    lemma_scan_proper(p, 0, Seq::empty(), Seq::empty());
    let cs = components(p);
    if cs.len() > 0 {
        lemma_join_starts_with_slash(cs);
    }
}

proof fn lemma_join_starts_with_slash(cs: Seq<Seq<u8>>)
    requires
        cs.len() > 0,
    ensures
        join_components(cs).len() > 0,
        join_components(cs)[0] == 47u8,
    decreases cs.len(),
{
    let front = join_components(cs.drop_last());
    if cs.len() > 1 {
        lemma_join_starts_with_slash(cs.drop_last());
    } else {
        assert(front =~= Seq::<u8>::empty());
    }
    assert(join_components(cs) == front + seq![47u8] + cs.last());
    assert((front + seq![47u8] + cs.last())[0] == 47u8);
}

/// The file name of `p`: everything after its last slash.
pub open spec fn file_name(p: Seq<u8>) -> Seq<u8> {
    match last_index_of(p, 47u8) {
        Some(j) => p.subrange(j + 1, p.len() as int),
        None => p,
    }
}

/// The extension of the file named by `p`: the bytes after the last dot of
/// its file name, when that dot is not the name's first byte. A path with
/// no file name ("/", or one ending in "..") has none.
pub open spec fn extension(p: Seq<u8>) -> Option<Seq<u8>> {
    let name = file_name(p);
    if name.len() == 0 || name == dot_dot() {
        None
    } else {
        match last_index_of(name, 46u8) {
            None => None,
            Some(d) => if d == 0 {
                None
            } else {
                Some(name.subrange(d + 1, name.len() as int))
            },
        }
    }
}


/// The extension of the file named by `p`.
pub fn extension_of(p: &Vec<u8>) -> (r: Option<Vec<u8>>)
    ensures
        match r {
            Some(e) => extension(p@) == Some(e@),
            None => extension(p@) is None,
        },
{
    proof {
        lemma_last_index_of_before(p@, 47u8, p@.len() as int);
    }
    let name = match last_index_of_byte(p, 47u8) {
        Some(j) => {
            assert(j < p.len());
            slice_bytes(p, j + 1, p.len())
        },
        None => slice_bytes(p, 0, p.len()),
    };
    assert(p@.subrange(0, p@.len() as int) =~= p@);
    assert(name@ == file_name(p@));
    let dd: Vec<u8> = vec![46u8, 46u8];
    assert(dd@ =~= dot_dot());
    if name.len() == 0 || bytes_eq(&name, &dd) {
        return None;
    }
    proof {
        lemma_last_index_of_before(name@, 46u8, name@.len() as int);
    }
    match last_index_of_byte(&name, 46u8) {
        None => None,
        Some(d) => {
            if d == 0 {
                None
            } else {
                Some(slice_bytes(&name, d + 1, name.len()))
            }
        },
    }
}

/// The component stack of a relative path after reading component `c`:
/// empty and "." components change nothing, ".." drops the last component
/// unless there is none or it is itself "..", in which case the ".." is
/// kept; any other name is added.
pub open spec fn step_relative(stack: Seq<Seq<u8>>, c: Seq<u8>) -> Seq<Seq<u8>> {
    if c.len() == 0 || c == dot() {
        stack
    } else if c == dot_dot() {
        if stack.len() > 0 && stack.last() != dot_dot() {
            stack.drop_last()
        } else {
            stack.push(c)
        }
    } else {
        stack.push(c)
    }
}

/// The component stack of a relative path after reading `p` from index `i`,
/// given the stack so far and the bytes of the component being read.
pub open spec fn scan_relative(p: Seq<u8>, i: int, stack: Seq<Seq<u8>>, cur: Seq<u8>) -> Seq<Seq<u8>>
    decreases p.len() - i,
{
    if i >= p.len() {
        step_relative(stack, cur)
    } else if p[i] == 47u8 {
        scan_relative(p, i + 1, step_relative(stack, cur), Seq::empty())
    } else {
        scan_relative(p, i + 1, stack, cur.push(p[i]))
    }
}

/// "c1/c2/.../cn" for the components `cs`; "." for none.
pub open spec fn render_relative(cs: Seq<Seq<u8>>) -> Seq<u8> {
    if cs.len() == 0 {
        dot()
    } else {
        join_components(cs).drop_first()
    }
}

/// `p` in normal form: an absolute path with "." and ".." resolved, or a
/// relative path with "." removed and each ".." cancelling the name before
/// it (leading ".." kept), without repeated or trailing slashes; "." for an
/// empty relative path.
pub open spec fn path_display(p: Seq<u8>) -> Seq<u8> {
    if p.len() > 0 && p[0] == 47u8 {
        normalize(p)
    } else {
        render_relative(scan_relative(p, 0, Seq::empty(), Seq::empty()))
    }
}

fn step_relative_exec(stack: &mut Vec<Vec<u8>>, cur: Vec<u8>)
    ensures
        final(stack)@.map_values(|v: Vec<u8>| v@) == step_relative(
            old(stack)@.map_values(|v: Vec<u8>| v@),
            cur@,
        ),
{
    let ghost before = old(stack)@.map_values(|v: Vec<u8>| v@);
    let d: Vec<u8> = vec![46u8];
    let dd: Vec<u8> = vec![46u8, 46u8];
    assert(d@ =~= dot());
    assert(dd@ =~= dot_dot());
    if cur.len() == 0 || bytes_eq(&cur, &d) {
    } else if bytes_eq(&cur, &dd) {
        let n = stack.len();
        if n > 0 && !bytes_eq(&stack[n - 1], &dd) {
            assert(before.last() == stack@[n - 1]@);
            stack.pop();
            assert(stack@.map_values(|v: Vec<u8>| v@) =~= before.drop_last());
        } else {
            let ghost c = cur@;
            stack.push(cur);
            assert(stack@.map_values(|v: Vec<u8>| v@) =~= before.push(c));
        }
    } else {
        let ghost c = cur@;
        stack.push(cur);
        assert(stack@.map_values(|v: Vec<u8>| v@) =~= before.push(c));
    }
}

/// `p` in normal form, as `path_display` says.
pub fn display_path(p: &Vec<u8>) -> (r: Vec<u8>)
    ensures
        r@ == path_display(p@),
{
    if p.len() > 0 && p[0] == 47u8 {
        return normalize_path(p);
    }
    let mut stack: Vec<Vec<u8>> = Vec::new();
    let mut cur: Vec<u8> = Vec::new();
    let mut i: usize = 0;
    assert(stack@.map_values(|v: Vec<u8>| v@) =~= Seq::<Seq<u8>>::empty());
    assert(cur@ =~= Seq::<u8>::empty());
    while i < p.len()
        invariant
            i <= p.len(),
            scan_relative(p@, i as int, stack@.map_values(|v: Vec<u8>| v@), cur@) == scan_relative(
                p@,
                0,
                Seq::empty(),
                Seq::empty(),
            ),
        decreases p.len() - i,
    {
        if p[i] == 47u8 {
            step_relative_exec(&mut stack, cur);
            cur = Vec::new();
            assert(cur@ =~= Seq::<u8>::empty());
        } else {
            cur.push(p[i]);
        }
        i = i + 1;
    }
    step_relative_exec(&mut stack, cur);
    if stack.len() == 0 {
        let r: Vec<u8> = vec![46u8];
        assert(r@ =~= dot());
        return r;
    }
    let joined = render_components(&stack);
    proof {
        lemma_join_starts_with_slash(stack@.map_values(|v: Vec<u8>| v@));
    }
    let r = slice_bytes(&joined, 1, joined.len());
    assert(r@ =~= joined@.drop_first());
    r
}

} // verus!
