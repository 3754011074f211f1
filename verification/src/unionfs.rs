//! The pieces of the union file system that stand on their own: the path of
//! an inode from the root, its hash (the inode number), the whiteout names
//! that hide entries of the image branches, and the sorted set of merged
//! directory entries.

use vstd::prelude::*;
use vstd::string::StringSliceAdditionalSpecFns;
use vstd::wrapping::usize_specs::{wrapping_add, wrapping_mul};

verus! {

/// The name "."
pub open spec fn dot_name() -> Seq<u8> {
    seq![46u8]
}

/// The name ".."
pub open spec fn dotdot_name() -> Seq<u8> {
    seq![46u8, 46u8]
}

/// The names of a path after stepping to `name`: "." stays, ".." drops the
/// last name (if there is one), any other name is appended.
pub open spec fn spec_append(p: Seq<Seq<u8>>, name: Seq<u8>) -> Seq<Seq<u8>> {
    if name == dot_name() {
        p
    } else if name == dotdot_name() {
        if p.len() > 0 {
            p.drop_last()
        } else {
            p
        }
    } else {
        p.push(name)
    }
}

/// The bytes of all names of a path, in order
pub open spec fn flat(p: Seq<Seq<u8>>) -> Seq<u8>
    decreases p.len(),
{
    if p.len() == 0 {
        Seq::empty()
    } else {
        flat(p.drop_last()) + p.last()
    }
}

/// One step of the Times33 hash, wrapping at the width of `usize`
pub open spec fn step33(h: usize, b: u8) -> usize {
    wrapping_add(wrapping_mul(h, 33), b as usize)
}

/// The Times33 hash of `s`, starting from `h`
pub open spec fn times33(h: usize, s: Seq<u8>) -> usize
    decreases s.len(),
{
    if s.len() == 0 {
        h
    } else {
        step33(times33(h, s.drop_last()), s.last())
    }
}

/// The names of the inner vector of names
pub open spec fn names_of(v: Seq<Vec<u8>>) -> Seq<Seq<u8>> {
    Seq::new(v.len(), |i: int| v[i]@)
}

/// A copy of `s`
fn copy_bytes(s: &[u8]) -> (v: Vec<u8>)
    ensures
        v@ == s@,
{
    vstd::slice::slice_to_vec(s)
}

/// Whether two byte strings are equal
fn bytes_equal(a: &[u8], b: &[u8]) -> (r: bool)
    ensures
        r == (a@ == b@),
{
    if a.len() != b.len() {
        return false;
    }
    let mut i: usize = 0;
    while i < a.len()
        invariant
            i <= a@.len(),
            a@.len() == b@.len(),
            forall|k: int| 0 <= k < i ==> a@[k] == b@[k],
        decreases a@.len() - i,
    {
        if a[i] != b[i] {
            return false;
        }
        i = i + 1;
    }
    assert(a@ =~= b@);
    true
}

/// Simple path: the names from the root inode
pub struct Path {
    names: Vec<Vec<u8>>,
}

impl Path {
    /// The names of the path
    pub closed spec fn view(&self) -> Seq<Seq<u8>> {
        names_of(self.names@)
    }

    /// The empty path, of the root inode
    pub fn new() -> (p: Path)
        ensures
            p.view() == Seq::<Seq<u8>>::empty(),
    {
        let p = Path { names: Vec::new() };
        assert(p.view() =~= Seq::<Seq<u8>>::empty());
        p
    }

    /// Step to `name`: "." stays, ".." goes up, any other name goes down
    pub fn append(&mut self, name: &str)
        ensures
            final(self).view() == spec_append(old(self).view(), name.spec_bytes()),
    {
        let b = name.as_bytes();
        let ghost p0 = self.view();
        let dot: Vec<u8> = vec![46u8];
        let dotdot: Vec<u8> = vec![46u8, 46u8];
        proof {
            assert(dot@ =~= dot_name());
            assert(dotdot@ =~= dotdot_name());
        }
        if bytes_equal(b, dot.as_slice()) {
        } else if bytes_equal(b, dotdot.as_slice()) {
            if self.names.len() > 0 {
                self.names.pop();
                assert(self.view() =~= p0.drop_last());
            }
        } else {
            self.names.push(copy_bytes(b));
            assert(self.view() =~= p0.push(b@));
        }
    }

    /// A copy of the path
    pub fn clone_path(&self) -> (p: Path)
        ensures
            p.view() == self.view(),
    {
        let mut names: Vec<Vec<u8>> = Vec::new();
        let mut i: usize = 0;
        while i < self.names.len()
            invariant
                i <= self.names@.len(),
                names@.len() == i,
                forall|k: int| 0 <= k < i ==> #[trigger] names@[k]@ == self.names@[k]@,
            decreases self.names@.len() - i,
        {
            names.push(copy_bytes(self.names[i].as_slice()));
            i = i + 1;
        }
        let p = Path { names };
        assert(p.view() =~= self.view());
        p
    }

    /// The path one step further, to `name`
    pub fn with_next(&self, name: &str) -> (p: Path)
        ensures
            p.view() == spec_append(self.view(), name.spec_bytes()),
    {
        let mut next = self.clone_path();
        next.append(name);
        next
    }

    /// The last `n` names of the path
    pub fn lastn(&self, n: usize) -> (r: &[Vec<u8>])
        requires
            n <= self.view().len(),
        ensures
            names_of(r@) == self.view().subrange(self.view().len() - n, self.view().len() as int),
    {
        let len = self.names.len();
        let r = vstd::slice::slice_subrange(self.names.as_slice(), len - n, len);
        assert(names_of(r@) =~= self.view().subrange(self.view().len() - n, self.view().len() as int));
        r
    }

    /// Hash path to get an INode ID: Times33 over the bytes of its names
    pub fn hash(&self) -> (h: usize)
        ensures
            h == times33(0, flat(self.view())),
    {
        let ghost p = self.view();
        let mut h: usize = 0;
        let mut i: usize = 0;
        while i < self.names.len()
            invariant
                i <= self.names@.len(),
                p == self.view(),
                h == times33(0, flat(p.subrange(0, i as int))),
            decreases self.names@.len() - i,
        {
            let name = self.names[i].as_slice();
            let ghost done = flat(p.subrange(0, i as int));
            let mut j: usize = 0;
            while j < name.len()
                invariant
                    j <= name@.len(),
                    h == times33(0, done + name@.subrange(0, j as int)),
                decreases name@.len() - j,
            {
                let b = name[j];
                proof {
                    let s = done + name@.subrange(0, j + 1);
                    assert(s.drop_last() =~= done + name@.subrange(0, j as int));
                }
                h = h.wrapping_mul(33).wrapping_add(b as usize);
                j = j + 1;
            }
            proof {
                let q = p.subrange(0, i + 1);
                assert(q.drop_last() =~= p.subrange(0, i as int));
                assert(name@.subrange(0, name@.len() as int) =~= name@);
                assert(q.last() == name@);
            }
            i = i + 1;
        }
        assert(p.subrange(0, p.len() as int) =~= p);
        h
    }
}

/// The name that hides `name` of the image branches: ".wh." and the name
pub open spec fn spec_whiteout(name: Seq<u8>) -> Seq<u8> {
    seq![46u8, 119u8, 104u8, 46u8] + name
}

/// The name that hides `name` of the image branches
pub fn whiteout(name: &str) -> (w: Vec<u8>)
    ensures
        w@ == spec_whiteout(name.spec_bytes()),
{
    let mut w: Vec<u8> = vec![46u8, 119u8, 104u8, 46u8];
    let b = name.as_bytes();
    let mut i: usize = 0;
    while i < b.len()
        invariant
            i <= b@.len(),
            w@ == seq![46u8, 119u8, 104u8, 46u8] + b@.subrange(0, i as int),
        decreases b@.len() - i,
    {
        w.push(b[i]);
        i = i + 1;
        assert(w@ =~= seq![46u8, 119u8, 104u8, 46u8] + b@.subrange(0, i as int));
    }
    assert(b@.subrange(0, b@.len() as int) =~= b@);
    w
}

/// Whether `a` comes before `b` in byte order
pub open spec fn lex_lt(a: Seq<u8>, b: Seq<u8>) -> bool
    decreases a.len(),
{
    if a.len() == 0 {
        b.len() > 0
    } else if b.len() == 0 {
        false
    } else if a[0] != b[0] {
        a[0] < b[0]
    } else {
        lex_lt(a.drop_first(), b.drop_first())
    }
}

pub proof fn lemma_lex_irreflexive(a: Seq<u8>)
    ensures
        !lex_lt(a, a),
    decreases a.len(),
{
    if a.len() > 0 {
        lemma_lex_irreflexive(a.drop_first());
    }
}

pub proof fn lemma_lex_total(a: Seq<u8>, b: Seq<u8>)
    ensures
        a == b || lex_lt(a, b) || lex_lt(b, a),
        !(lex_lt(a, b) && lex_lt(b, a)),
    decreases a.len(),
{
    if a.len() > 0 && b.len() > 0 && a[0] == b[0] {
        lemma_lex_total(a.drop_first(), b.drop_first());
        if a.drop_first() == b.drop_first() {
            assert(a =~= seq![a[0]] + a.drop_first());
            assert(b =~= seq![b[0]] + b.drop_first());
        }
    } else if a.len() == 0 && b.len() == 0 {
        assert(a =~= b);
    }
}

pub proof fn lemma_lex_transitive(a: Seq<u8>, b: Seq<u8>, c: Seq<u8>)
    requires
        lex_lt(a, b),
        lex_lt(b, c),
    ensures
        lex_lt(a, c),
    decreases a.len(),
{
    if a.len() > 0 && b.len() > 0 && c.len() > 0 && a[0] == b[0] && b[0] == c[0] {
        lemma_lex_transitive(a.drop_first(), b.drop_first(), c.drop_first());
    }
}

/// Byte order decides at the first byte: whatever follows and whatever the
/// lengths, a name whose first byte is smaller comes first.
pub proof fn law_lex_first_byte(a0: u8, b0: u8, s: Seq<u8>, t: Seq<u8>)
    requires
        a0 < b0,
    ensures
        lex_lt(seq![a0] + s, seq![b0] + t),
        !lex_lt(seq![b0] + t, seq![a0] + s),
{
    let a = seq![a0] + s;
    let b = seq![b0] + t;
    assert(a[0] == a0);
    assert(b[0] == b0);
}

/// A proper prefix of a name comes before it.
pub proof fn law_lex_proper_prefix(a: Seq<u8>, b: Seq<u8>)
    requires
        a.len() < b.len(),
        a == b.subrange(0, a.len() as int),
    ensures
        lex_lt(a, b),
        !lex_lt(b, a),
    decreases a.len(),
{
    if a.len() > 0 {
        assert(a[0] == b.subrange(0, a.len() as int)[0]);
        assert(a.drop_first() =~= b.drop_first().subrange(0, a.drop_first().len() as int));
        law_lex_proper_prefix(a.drop_first(), b.drop_first());
    }
}

/// A common prefix does not change the order of two names.
pub proof fn law_lex_common_prefix(p: Seq<u8>, a: Seq<u8>, b: Seq<u8>)
    ensures
        lex_lt(p + a, p + b) == lex_lt(a, b),
    decreases p.len(),
{
    if p.len() == 0 {
        assert(p + a =~= a);
        assert(p + b =~= b);
    } else {
        assert((p + a)[0] == p[0]);
        assert((p + b)[0] == p[0]);
        assert((p + a).drop_first() =~= p.drop_first() + a);
        assert((p + b).drop_first() =~= p.drop_first() + b);
        law_lex_common_prefix(p.drop_first(), a, b);
    }
}

/// Whether `s` is sorted in byte order with no name twice
pub open spec fn sorted_names(s: Seq<Seq<u8>>) -> bool {
    forall|i: int, j: int| 0 <= i < j < s.len() ==> lex_lt(#[trigger] s[i], #[trigger] s[j])
}

/// Names in strictly increasing byte order are all different.
pub proof fn lemma_sorted_names_distinct(s: Seq<Seq<u8>>)
    requires
        sorted_names(s),
    ensures
        forall|i: int, j: int| 0 <= i < j < s.len() ==> #[trigger] s[i] != #[trigger] s[j],
{
    assert forall|i: int, j: int| 0 <= i < j < s.len() implies #[trigger] s[i] != #[trigger] s[j] by {
        if s[i] == s[j] {
            lemma_lex_irreflexive(s[i]);
        }
    }
}

/// Whether `a` comes before `b` in byte order
fn bytes_lt(a: &[u8], b: &[u8]) -> (r: bool)
    ensures
        r == lex_lt(a@, b@),
{
    let mut i: usize = 0;
    assert(a@.subrange(0, a@.len() as int) =~= a@);
    assert(b@.subrange(0, b@.len() as int) =~= b@);
    while i < a.len() && i < b.len()
        invariant
            i <= a@.len(),
            i <= b@.len(),
            forall|k: int| 0 <= k < i ==> a@[k] == b@[k],
            lex_lt(a@, b@) == lex_lt(a@.subrange(i as int, a@.len() as int), b@.subrange(i as int, b@.len() as int)),
        decreases a@.len() - i,
    {
        if a[i] != b[i] {
            return a[i] < b[i];
        }
        proof {
            let sa = a@.subrange(i as int, a@.len() as int);
            let sb = b@.subrange(i as int, b@.len() as int);
            assert(sa.drop_first() =~= a@.subrange(i + 1, a@.len() as int));
            assert(sb.drop_first() =~= b@.subrange(i + 1, b@.len() as int));
        }
        i = i + 1;
    }
    i == a.len() && i < b.len()
}

/// A set of names kept sorted in byte order, as a `BTreeSet<String>` keeps them
pub struct NameSet {
    names: Vec<Vec<u8>>,
}

impl NameSet {
    /// The names, in order
    pub closed spec fn view(&self) -> Seq<Seq<u8>> {
        names_of(self.names@)
    }

    /// The invariant: sorted, each name once
    pub open spec fn wf(&self) -> bool {
        sorted_names(self.view())
    }

    /// The empty set
    pub fn new() -> (s: NameSet)
        ensures
            s.wf(),
            s.view() == Seq::<Seq<u8>>::empty(),
    {
        let s = NameSet { names: Vec::new() };
        assert(s.view() =~= Seq::<Seq<u8>>::empty());
        s
    }

    /// The number of names
    pub fn len(&self) -> (n: usize)
        ensures
            n == self.view().len(),
    {
        self.names.len()
    }

    /// The position of the first name not before `name`
    fn position(&self, name: &[u8]) -> (i: usize)
        requires
            self.wf(),
        ensures
            i <= self.view().len(),
            forall|k: int| 0 <= k < i ==> lex_lt(#[trigger] self.view()[k], name@),
            i < self.view().len() ==> !lex_lt(self.view()[i as int], name@),
    {
        let mut i: usize = 0;
        while i < self.names.len()
            invariant
                i <= self.names@.len(),
                forall|k: int| 0 <= k < i ==> lex_lt(#[trigger] self.view()[k], name@),
            decreases self.names@.len() - i,
        {
            if !bytes_lt(self.names[i].as_slice(), name) {
                return i;
            }
            i = i + 1;
        }
        i
    }

    /// Whether `name` is in the set
    pub fn contains(&self, name: &[u8]) -> (b: bool)
        requires
            self.wf(),
        ensures
            b == self.view().contains(name@),
    {
        let i = self.position(name);
        let found = i < self.names.len() && bytes_equal(self.names[i].as_slice(), name);
        proof {
            if self.view().contains(name@) {
                let k = choose|k: int| 0 <= k < self.view().len() && self.view()[k] == name@;
                lemma_lex_irreflexive(name@);
                if k > i {
                    assert(lex_lt(self.view()[i as int], self.view()[k]));
                    lemma_lex_total(self.view()[i as int], name@);
                }
            }
        }
        found
    }

    /// Add `name` to the set
    pub fn insert(&mut self, name: &[u8])
        requires
            old(self).wf(),
        ensures
            final(self).wf(),
            final(self).view().to_set() == old(self).view().to_set().insert(name@),
    {
        let i = self.position(name);
        if i < self.names.len() && bytes_equal(self.names[i].as_slice(), name) {
            proof {
                assert(self.view().to_set() =~= old(self).view().to_set().insert(name@)) by {
                    assert(self.view()[i as int] == name@);
                }
            }
            return;
        }
        let ghost v0 = self.view();
        self.names.insert(i, copy_bytes(name));
        proof {
            let v = self.view();
            assert(v =~= v0.insert(i as int, name@));
            if i < v0.len() {
                lemma_lex_total(v0[i as int], name@);
            }
            assert forall|a: int, b: int| 0 <= a < b < v.len() implies lex_lt(#[trigger] v[a], #[trigger] v[b]) by {
                if a < i && b == i {
                } else if a < i && b > i {
                    assert(v[b] == v0[b - 1]);
                    if b - 1 > i {
                        lemma_lex_transitive(name@, v0[i as int], v0[b - 1]);
                    }
                    lemma_lex_transitive(v0[a], name@, v0[b - 1]);
                } else if a == i {
                    assert(v[b] == v0[b - 1]);
                    if b - 1 > i {
                        lemma_lex_transitive(name@, v0[i as int], v0[b - 1]);
                    }
                } else if a > i {
                    assert(v[a] == v0[a - 1] && v[b] == v0[b - 1]);
                } else {
                    assert(v[a] == v0[a] && v[b] == v0[b]);
                }
            }
            assert(v.to_set() =~= v0.to_set().insert(name@)) by {
                assert forall|x: Seq<u8>| v.to_set().contains(x) implies v0.to_set().insert(name@).contains(x) by {
                    let k = choose|k: int| 0 <= k < v.len() && v[k] == x;
                    if k < i {
                        assert(v0[k] == x);
                    } else if k > i {
                        assert(v0[k - 1] == x);
                    }
                }
                assert forall|x: Seq<u8>| v0.to_set().insert(name@).contains(x) implies v.to_set().contains(x) by {
                    if x == name@ {
                        assert(v[i as int] == x);
                    } else {
                        let k = choose|k: int| 0 <= k < v0.len() && v0[k] == x;
                        if k < i {
                            assert(v[k] == x);
                        } else {
                            assert(v[k + 1] == x);
                        }
                    }
                }
            }
        }
    }

    /// Remove `name` from the set
    pub fn remove(&mut self, name: &[u8])
        requires
            old(self).wf(),
        ensures
            final(self).wf(),
            final(self).view().to_set() == old(self).view().to_set().remove(name@),
    {
        let i = self.position(name);
        let ghost v0 = self.view();
        if !(i < self.names.len() && bytes_equal(self.names[i].as_slice(), name)) {
            proof {
                assert(!v0.contains(name@)) by {
                    if v0.contains(name@) {
                        let k = choose|k: int| 0 <= k < v0.len() && v0[k] == name@;
                        lemma_lex_irreflexive(name@);
                        if k > i {
                            assert(lex_lt(v0[i as int], v0[k]));
                            lemma_lex_total(v0[i as int], name@);
                        }
                    }
                }
                assert(v0.to_set() =~= v0.to_set().remove(name@));
            }
            return;
        }
        self.names.remove(i);
        proof {
            let v = self.view();
            assert(v =~= v0.remove(i as int));
            assert forall|a: int, b: int| 0 <= a < b < v.len() implies lex_lt(#[trigger] v[a], #[trigger] v[b]) by {
                if a < i && b < i {
                    assert(v[a] == v0[a] && v[b] == v0[b]);
                } else if a < i {
                    assert(v[a] == v0[a] && v[b] == v0[b + 1]);
                } else {
                    assert(v[a] == v0[a + 1] && v[b] == v0[b + 1]);
                }
            }
            assert(v.to_set() =~= v0.to_set().remove(name@)) by {
                assert forall|x: Seq<u8>| v.to_set().contains(x) implies v0.to_set().remove(name@).contains(x) by {
                    let k = choose|k: int| 0 <= k < v.len() && v[k] == x;
                    lemma_lex_irreflexive(name@);
                    if k < i {
                        assert(v0[k] == x);
                        assert(lex_lt(v0[k], v0[i as int]));
                    } else {
                        assert(v0[k + 1] == x);
                        assert(lex_lt(v0[i as int], v0[k + 1]));
                    }
                }
                assert forall|x: Seq<u8>| v0.to_set().remove(name@).contains(x) implies v.to_set().contains(x) by {
                    let k = choose|k: int| 0 <= k < v0.len() && v0[k] == x;
                    if k < i {
                        assert(v[k] == x);
                    } else {
                        assert(k != i);
                        assert(v[k - 1] == x);
                    }
                }
            }
        }
    }

    /// The name at position `id` in byte order
    pub fn nth(&self, id: usize) -> (r: Option<Vec<u8>>)
        ensures
            id < self.view().len() ==> (r matches Some(v) && v@ == self.view()[id as int]),
            id >= self.view().len() ==> r is None,
    {
        if id < self.names.len() {
            Some(copy_bytes(self.names[id].as_slice()))
        } else {
            None
        }
    }
}

/// Whether `name` is a whiteout name: ".wh." and the name it hides
pub open spec fn is_whiteout(name: Seq<u8>) -> bool {
    name.len() >= 4 && name.subrange(0, 4) == seq![46u8, 119u8, 104u8, 46u8]
}

/// The names of the image branches, together
pub open spec fn image_names(images: Seq<Seq<Seq<u8>>>) -> Set<Seq<u8>>
    decreases images.len(),
{
    if images.len() == 0 {
        Set::empty()
    } else {
        image_names(images.drop_last()).union(images.last().to_set())
    }
}

/// The names of the image branches are exactly the names that some image
/// branch lists: every branch contributes all of its names.
pub proof fn law_image_names(images: Seq<Seq<Seq<u8>>>, n: Seq<u8>)
    ensures
        image_names(images).contains(n) <==> exists|i: int| 0 <= i < images.len() && #[trigger] images[i].contains(n),
    decreases images.len(),
{
    if images.len() > 0 {
        let l = images.len() - 1;
        let prev = images.drop_last();
        law_image_names(prev, n);
        if image_names(images).contains(n) {
            if images.last().to_set().contains(n) {
                assert(images[l].contains(n));
            } else {
                let i = choose|i: int| 0 <= i < prev.len() && #[trigger] prev[i].contains(n);
                assert(images[i] == prev[i]);
            }
        }
        if exists|i: int| 0 <= i < images.len() && #[trigger] images[i].contains(n) {
            let i = choose|i: int| 0 <= i < images.len() && #[trigger] images[i].contains(n);
            if i < l {
                assert(prev[i] == images[i]);
            } else {
                assert(images.last().to_set().contains(n));
            }
        }
    }
}

/// The names after the container's names are applied in order: a whiteout
/// name removes the name it hides, any other name is added
pub open spec fn apply_container(s: Set<Seq<u8>>, names: Seq<Seq<u8>>) -> Set<Seq<u8>>
    decreases names.len(),
{
    if names.len() == 0 {
        s
    } else {
        let s1 = apply_container(s, names.drop_last());
        let n = names.last();
        if is_whiteout(n) {
            s1.remove(n.subrange(4, n.len() as int))
        } else {
            s1.insert(n)
        }
    }
}

/// The names of the nested vector of names
pub open spec fn lists_of(v: Seq<Vec<Vec<u8>>>) -> Seq<Seq<Seq<u8>>> {
    Seq::new(v.len(), |i: int| names_of(v[i]@))
}

/// Whether `name` starts with ".wh."
fn starts_with_whiteout(name: &[u8]) -> (b: bool)
    ensures
        b == is_whiteout(name@),
{
    if name.len() >= 4 && name[0] == 46u8 && name[1] == 119u8 && name[2] == 104u8 && name[3] == 46u8 {
        assert(name@.subrange(0, 4) =~= seq![46u8, 119u8, 104u8, 46u8]);
        true
    } else {
        proof {
            if name@.len() >= 4 {
                assert(name@.subrange(0, 4)[0] == name@[0]);
                assert(name@.subrange(0, 4)[1] == name@[1]);
                assert(name@.subrange(0, 4)[2] == name@[2]);
                assert(name@.subrange(0, 4)[3] == name@[3]);
            }
        }
        false
    }
}

/// Merge directory entries: the names listed by the image branches (in
/// `images`), then those listed by the container (if it has the directory),
/// where a whiteout name removes the name it hides
pub fn merge_entries(images: &[Vec<Vec<u8>>], container: Option<&[Vec<u8>]>) -> (s: NameSet)
    ensures
        s.wf(),
        s.view().to_set() == apply_container(
            image_names(lists_of(images@)),
            match container {
                Some(c) => names_of(c@),
                None => Seq::empty(),
            },
        ),
{
    let mut s = NameSet::new();
    let ghost lists = lists_of(images@);
    let mut i: usize = 0;
    while i < images.len()
        invariant
            i <= images@.len(),
            lists == lists_of(images@),
            s.wf(),
            s.view().to_set() == image_names(lists.subrange(0, i as int)),
        decreases images@.len() - i,
    {
        let names = &images[i];
        let ghost before = s.view().to_set();
        let mut j: usize = 0;
        while j < names.len()
            invariant
                j <= names@.len(),
                s.wf(),
                s.view().to_set() == before.union(names_of(names@).subrange(0, j as int).to_set()),
            decreases names@.len() - j,
        {
            let ghost prev = s.view().to_set();
            s.insert(names[j].as_slice());
            proof {
                let t = names_of(names@);
                assert(t.subrange(0, j + 1) =~= t.subrange(0, j as int).push(t[j as int]));
                t.subrange(0, j as int).lemma_push_to_set_commute(t[j as int]);
                assert(s.view().to_set() =~= before.union(t.subrange(0, j + 1).to_set()));
            }
            j = j + 1;
        }
        proof {
            let q = lists.subrange(0, i + 1);
            assert(q.drop_last() =~= lists.subrange(0, i as int));
            assert(names_of(names@).subrange(0, names@.len() as int) =~= names_of(names@));
            assert(q.last() == names_of(names@));
        }
        i = i + 1;
    }
    assert(lists.subrange(0, images@.len() as int) =~= lists);
    let ghost base = s.view().to_set();
    match container {
        Some(c) => {
            let mut j: usize = 0;
            while j < c.len()
                invariant
                    j <= c@.len(),
                    s.wf(),
                    s.view().to_set() == apply_container(base, names_of(c@).subrange(0, j as int)),
                decreases c@.len() - j,
            {
                let name = c[j].as_slice();
                proof {
                    let q = names_of(c@).subrange(0, j + 1);
                    assert(q.drop_last() =~= names_of(c@).subrange(0, j as int));
                    assert(q.last() == name@);
                }
                if starts_with_whiteout(name) {
                    s.remove(vstd::slice::slice_subrange(name, 4, name.len()));
                } else {
                    s.insert(name);
                }
                j = j + 1;
            }
            assert(names_of(c@).subrange(0, c@.len() as int) =~= names_of(c@));
        },
        None => {},
    }
    s
}

/// Stepping down to a name other than "." and ".." and then up again gives
/// back the path one started from.
pub proof fn law_up_after_down(p: Seq<Seq<u8>>, name: Seq<u8>)
    requires
        name != dot_name(),
        name != dotdot_name(),
    ensures
        spec_append(spec_append(p, name), dotdot_name()) == p,
{
    assert(dotdot_name() != dot_name()) by {
        assert(dotdot_name().len() != dot_name().len());
    }
    assert(p.push(name).drop_last() =~= p);
}

/// A name that the container neither lists nor whites out keeps its place:
/// it is among the merged entries exactly when the image branches list it.
pub proof fn law_container_keeps_others(s: Set<Seq<u8>>, names: Seq<Seq<u8>>, m: Seq<u8>)
    requires
        forall|j: int| 0 <= j < names.len() ==> #[trigger] names[j] != m && !(is_whiteout(names[j])
            && names[j].subrange(4, names[j].len() as int) == m),
    ensures
        apply_container(s, names).contains(m) == s.contains(m),
    decreases names.len(),
{
    if names.len() > 0 {
        let prev = names.drop_last();
        assert forall|j: int| 0 <= j < prev.len() implies #[trigger] prev[j] != m && !(is_whiteout(prev[j])
            && prev[j].subrange(4, prev[j].len() as int) == m) by {
            assert(prev[j] == names[j]);
        }
        law_container_keeps_others(s, prev, m);
        assert(names.last() == names[names.len() - 1]);
    }
}

/// A name of the container that is no whiteout is among the merged entries,
/// whatever came before it.
pub proof fn law_container_adds(s: Set<Seq<u8>>, names: Seq<Seq<u8>>, name: Seq<u8>)
    requires
        !is_whiteout(name),
    ensures
        apply_container(s, names.push(name)).contains(name),
{
    assert(names.push(name).drop_last() =~= names);
}

/// A whiteout name in the container hides the name from the merged entries,
/// whatever the image branches hold.
pub proof fn law_whiteout_hides(s: Set<Seq<u8>>, names: Seq<Seq<u8>>, name: Seq<u8>)
    ensures
        !apply_container(s, names.push(spec_whiteout(name))).contains(name),
{
    let w = spec_whiteout(name);
    let t = names.push(w);
    assert(t.drop_last() =~= names);
    assert(w.subrange(0, 4) =~= seq![46u8, 119u8, 104u8, 46u8]);
    assert(w.subrange(4, w.len() as int) =~= name);
}

} // verus!
