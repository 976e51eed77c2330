//! A model of Unix paths as byte strings, with the component structure that
//! the standard library gives them (`std::path::Path::components`), and the
//! operations on paths that the normalizer needs.
use vstd::prelude::*;

verus! {

/// The byte `/`, the path separator.
pub const SLASH: u8 = 0x2f;

/// The byte `.`.
pub const DOT: u8 = 0x2e;

/// One component of a path, as a mathematical value.
pub enum Component {
    /// The leading `/` of an absolute path.
    RootDir,
    /// A leading `.` of a relative path.
    CurDir,
    /// A `..`.
    ParentDir,
    /// Any other non-empty segment.
    Normal(Seq<u8>),
}

/// One component of a path, as an executable value.
pub enum PathComponent {
    RootDir,
    CurDir,
    ParentDir,
    Normal(Vec<u8>),
}

impl View for PathComponent {
    type V = Component;

    open spec fn view(&self) -> Component {
        match self {
            PathComponent::RootDir => Component::RootDir,
            PathComponent::CurDir => Component::CurDir,
            PathComponent::ParentDir => Component::ParentDir,
            PathComponent::Normal(n) => Component::Normal(n@),
        }
    }
}

/// The mathematical components of a sequence of executable components.
pub open spec fn comps_view(cs: Seq<PathComponent>) -> Seq<Component> {
    cs.map_values(|c: PathComponent| c@)
}

/// True when the path starts with the root directory `/`.
pub open spec fn has_root(p: Seq<u8>) -> bool {
    p.len() > 0 && p[0] == SLASH
}

/// True when a relative path starts with a `.` segment (`.` or `./...`).
pub open spec fn starts_with_cur_dir(p: Seq<u8>) -> bool {
    p.len() > 0 && p[0] == DOT && (p.len() == 1 || p[1] == SLASH)
}

/// The index of the first separator at or after `i`, or the length of `p`.
pub open spec fn next_sep(p: Seq<u8>, i: int) -> int
    decreases p.len() - i,
{
    if i >= p.len() {
        p.len() as int
    } else if p[i] == SLASH {
        i
    } else {
        next_sep(p, i + 1)
    }
}

/// The component that one segment between separators stands for: none for an
/// empty segment or `.`, `ParentDir` for `..`, a `Normal` one otherwise.
pub open spec fn segment_component(seg: Seq<u8>) -> Seq<Component> {
    if seg.len() == 0 || seg == seq![DOT] {
        seq![]
    } else if seg == seq![DOT, DOT] {
        seq![Component::ParentDir]
    } else {
        seq![Component::Normal(seg)]
    }
}

/// The components of the segments of `p` from index `i` on.
pub open spec fn body_from(p: Seq<u8>, i: int) -> Seq<Component>
    decreases p.len() + 1 - i,
{
    if i < 0 || i >= p.len() {
        seq![]
    } else {
        let j = next_sep(p, i);
        proof {
            lemma_next_sep_bounds(p, i);
            assert(i <= j);
        }
        segment_component(p.subrange(i, j)) + body_from(p, j + 1)
    }
}

/// The components of a path: the root or a leading `.`, then one component
/// for each segment that is neither empty nor `.`.
pub open spec fn components(p: Seq<u8>) -> Seq<Component> {
    let head = if has_root(p) {
        seq![Component::RootDir]
    } else if starts_with_cur_dir(p) {
        seq![Component::CurDir]
    } else {
        seq![]
    };
    head + body_from(p, 0)
}

/// The next separator lies between `i` and the end, with none before it.
pub proof fn lemma_next_sep_bounds(p: Seq<u8>, i: int)
    requires
        0 <= i,
    ensures
        i <= p.len() ==> i <= next_sep(p, i) <= p.len(),
        i > p.len() ==> next_sep(p, i) == p.len(),
        next_sep(p, i) < p.len() ==> p[next_sep(p, i)] == SLASH,
        forall|k: int| i <= k < next_sep(p, i) ==> p[k] != SLASH,
    decreases p.len() - i,
{
    if i < p.len() && p[i] != SLASH {
        lemma_next_sep_bounds(p, i + 1);
    }
}

/// When no separator lies in `[i, k)`, the next separator from `i` is the one from `k`.
pub proof fn lemma_next_sep_skip(p: Seq<u8>, i: int, k: int)
    requires
        0 <= i <= k <= p.len(),
        forall|x: int| i <= x < k ==> p[x] != SLASH,
    ensures
        next_sep(p, i) == next_sep(p, k),
    decreases k - i,
{
    if i < k {
        lemma_next_sep_skip(p, i + 1, k);
    }
}

/// Whether a path is absolute: on Unix, exactly when it has a root.
pub fn is_absolute(p: &[u8]) -> (r: bool)
    ensures
        r == has_root(p@),
{
    p.len() > 0 && p[0] == SLASH
}

fn copy_range(p: &[u8], i: usize, j: usize) -> (r: Vec<u8>)
    requires
        i <= j <= p.len(),
    ensures
        r@ == p@.subrange(i as int, j as int),
{
    let mut r: Vec<u8> = Vec::new();
    let mut k = i;
    while k < j
        invariant
            i <= k <= j <= p.len(),
            r@ == p@.subrange(i as int, k as int),
        decreases j - k,
    {
        r.push(p[k]);
        k += 1;
    }
    r
}

/// The component that the segment `p[i..j]` stands for, if any.
fn segment_of(p: &[u8], i: usize, j: usize) -> (r: Option<PathComponent>)
    requires
        i <= j <= p.len(),
    ensures
        match r {
            Some(c) => segment_component(p@.subrange(i as int, j as int)) == seq![c@],
            None => segment_component(p@.subrange(i as int, j as int)) == Seq::<Component>::empty(),
        },
{
    let ghost seg = p@.subrange(i as int, j as int);
    if j == i {
        None
    } else if j - i == 1 && p[i] == DOT {
        assert(seg =~= seq![DOT]);
        None
    } else if j - i == 2 && p[i] == DOT && p[i + 1] == DOT {
        assert(seg =~= seq![DOT, DOT]);
        Some(PathComponent::ParentDir)
    } else {
        assert(seg != seq![DOT]) by {
            if seg == seq![DOT] {
                assert(seg.len() == 1 && seg[0] == DOT);
            }
        }
        assert(seg != seq![DOT, DOT]) by {
            if seg == seq![DOT, DOT] {
                assert(seg.len() == 2 && seg[0] == DOT && seg[1] == DOT);
            }
        }
        Some(PathComponent::Normal(copy_range(p, i, j)))
    }
}

/// The components of a path, as `std::path::Path::components` gives them on Unix.
pub fn parse_components(p: &[u8]) -> (cs: Vec<PathComponent>)
    ensures
        comps_view(cs@) == components(p@),
{
    let mut cs: Vec<PathComponent> = Vec::new();
    if p.len() > 0 && p[0] == SLASH {
        cs.push(PathComponent::RootDir);
    } else if p.len() > 0 && p[0] == DOT && (p.len() == 1 || p[1] == SLASH) {
        cs.push(PathComponent::CurDir);
    }
    let ghost head = comps_view(cs@);
    assert(head + body_from(p@, 0) == components(p@));
    let mut start: usize = 0;
    let mut i: usize = 0;
    while i < p.len()
        invariant
            start <= i <= p.len(),
            forall|x: int| start <= x < i ==> p@[x] != SLASH,
            comps_view(cs@) + body_from(p@, start as int) == components(p@),
        decreases p.len() - i,
    {
        if p[i] == SLASH {
            proof {
                lemma_next_sep_skip(p@, start as int, i as int);
            }
            let ghost before = comps_view(cs@);
            match segment_of(p, start, i) {
                Some(c) => {
                    cs.push(c);
                    assert(comps_view(cs@) =~= before + seq![c@]);
                },
                None => {},
            }
            start = i + 1;
        }
        i += 1;
    }
    proof {
        lemma_next_sep_skip(p@, start as int, i as int);
    }
    let ghost before = comps_view(cs@);
    if start < p.len() {
        match segment_of(p, start, p.len()) {
            Some(c) => {
                cs.push(c);
                assert(comps_view(cs@) =~= before + seq![c@]);
            },
            None => {},
        }
        assert(body_from(p@, p@.len() as int + 1) == Seq::<Component>::empty());
    }
    assert(comps_view(cs@) =~= components(p@));
    cs
}

/// `base` followed by `p`, as `PathBuf::push` joins them: an absolute `p`
/// replaces `base`; otherwise a separator is put between the two unless
/// `base` is empty or already ends with one.
pub open spec fn join_spec(base: Seq<u8>, p: Seq<u8>) -> Seq<u8> {
    if has_root(p) {
        p
    } else if base.len() > 0 && base.last() != SLASH {
        base + seq![SLASH] + p
    } else {
        base + p
    }
}

/// `p` itself when it is absolute, else `p` joined onto `prefix`.
pub open spec fn absolutize_spec(p: Seq<u8>, prefix: Seq<u8>) -> Seq<u8> {
    if has_root(p) {
        p
    } else {
        join_spec(prefix, p)
    }
}

/// A name that a `Normal` component can hold: non-empty, without a
/// separator, and neither `.` nor `..`.
pub open spec fn valid_name(n: Seq<u8>) -> bool {
    &&& n.len() > 0
    &&& forall|i: int| 0 <= i < n.len() ==> n[i] != SLASH
    &&& n != seq![DOT]
    &&& n != seq![DOT, DOT]
}

/// Names separated by single separators.
pub open spec fn join_names(ns: Seq<Seq<u8>>) -> Seq<u8>
    decreases ns.len(),
{
    if ns.len() == 0 {
        seq![]
    } else if ns.len() == 1 {
        ns[0]
    } else {
        join_names(ns.drop_last()) + seq![SLASH] + ns.last()
    }
}

/// `n` parent steps: `..`, `../..`, and so on (empty for none).
pub open spec fn parent_steps(n: nat) -> Seq<u8>
    decreases n,
{
    if n == 0 {
        seq![]
    } else if n == 1 {
        seq![DOT, DOT]
    } else {
        parent_steps((n - 1) as nat) + seq![SLASH] + seq![DOT, DOT]
    }
}

/// The `Normal` components for a sequence of names.
pub open spec fn normal_components(ns: Seq<Seq<u8>>) -> Seq<Component> {
    ns.map_values(|n: Seq<u8>| Component::Normal(n))
}

/// `n` parent-directory components.
pub open spec fn parent_components(n: nat) -> Seq<Component> {
    Seq::new(n, |i: int| Component::ParentDir)
}

/// Appends the bytes of `p` to `v`.
pub fn append_bytes(v: &mut Vec<u8>, p: &[u8])
    ensures
        final(v)@ == old(v)@ + p@,
{
    let mut k: usize = 0;
    while k < p.len()
        invariant
            k <= p.len(),
            v@ == old(v)@ + p@.subrange(0, k as int),
        decreases p.len() - k,
    {
        v.push(p[k]);
        k += 1;
        assert(v@ =~= old(v)@ + p@.subrange(0, k as int));
    }
    assert(p@.subrange(0, p@.len() as int) =~= p@);
}

/// `base.join(p)`: see `join_spec`.
pub fn join(base: &[u8], p: &[u8]) -> (r: Vec<u8>)
    ensures
        r@ == join_spec(base@, p@),
{
    let mut r: Vec<u8> = Vec::new();
    if is_absolute(p) {
        append_bytes(&mut r, p);
        assert(r@ =~= p@);
    } else {
        append_bytes(&mut r, base);
        if base.len() > 0 && base[base.len() - 1] != SLASH {
            r.push(SLASH);
        }
        append_bytes(&mut r, p);
    }
    r
}

/// `p` made absolute against `prefix`: `p` itself when it is absolute, else
/// `prefix.join(p)`.
pub fn absolutize(p: &[u8], prefix: &[u8]) -> (r: Vec<u8>)
    ensures
        r@ == absolutize_spec(p@, prefix@),
{
    if is_absolute(p) {
        let mut r: Vec<u8> = Vec::new();
        append_bytes(&mut r, p);
        assert(r@ =~= p@);
        r
    } else {
        join(prefix, p)
    }
}

/// Appends the names `ns[from..]`, separated by single separators, to `v`.
pub fn append_joined_names(v: &mut Vec<u8>, ns: &Vec<Vec<u8>>, from: usize)
    requires
        from <= ns.len(),
    ensures
        final(v)@ == old(v)@ + join_names(names_view(ns@).skip(from as int)),
{
    let ghost all = names_view(ns@);
    let mut i = from;
    while i < ns.len()
        invariant
            from <= i <= ns.len(),
            all == names_view(ns@),
            v@ == old(v)@ + join_names(all.subrange(from as int, i as int)),
        decreases ns.len() - i,
    {
        let ghost prev = all.subrange(from as int, i as int);
        let ghost next = all.subrange(from as int, i + 1);
        assert(next.drop_last() =~= prev);
        if i > from {
            v.push(SLASH);
        }
        append_bytes(v, ns[i].as_slice());
        proof {
            if i == from {
                assert(prev =~= Seq::<Seq<u8>>::empty());
            }
            assert(v@ =~= old(v)@ + join_names(next));
        }
        i += 1;
    }
    assert(all.subrange(from as int, ns@.len() as int) =~= all.skip(from as int));
}

/// The byte sequences of a sequence of names.
pub open spec fn names_view(ns: Seq<Vec<u8>>) -> Seq<Seq<u8>> {
    ns.map_values(|n: Vec<u8>| n@)
}

/// `..` repeated `n` times, separated by single separators.
pub fn parent_steps_bytes(n: usize) -> (r: Vec<u8>)
    ensures
        r@ == parent_steps(n as nat),
{
    let mut r: Vec<u8> = Vec::new();
    let mut i: usize = 0;
    while i < n
        invariant
            i <= n,
            r@ == parent_steps(i as nat),
        decreases n - i,
    {
        if i > 0 {
            r.push(SLASH);
        }
        r.push(DOT);
        r.push(DOT);
        assert(r@ =~= parent_steps((i + 1) as nat));
        i += 1;
    }
    r
}

/// Searching in `x + y` past `x` is searching in `y`.
pub proof fn lemma_next_sep_shift(x: Seq<u8>, y: Seq<u8>, j: int)
    requires
        0 <= j,
    ensures
        next_sep(x + y, x.len() + j) == x.len() + next_sep(y, j),
    decreases y.len() - j,
{
    if j < y.len() {
        assert((x + y)[x.len() + j] == y[j]);
        if y[j] != SLASH {
            lemma_next_sep_shift(x, y, j + 1);
        }
    }
}

/// The segments of `x + y` past `x` are those of `y`.
pub proof fn lemma_body_shift(x: Seq<u8>, y: Seq<u8>, j: int)
    requires
        0 <= j,
    ensures
        body_from(x + y, x.len() + j) == body_from(y, j),
    decreases y.len() + 1 - j,
{
    if j < y.len() {
        let n = next_sep(y, j);
        lemma_next_sep_shift(x, y, j);
        lemma_next_sep_bounds(y, j);
        assert((x + y).subrange(x.len() + j, x.len() + n) =~= y.subrange(j, n));
        lemma_body_shift(x, y, n + 1);
    }
}

/// Joining two byte strings with a separator concatenates their segments.
pub proof fn lemma_body_concat(a: Seq<u8>, b: Seq<u8>, i: int)
    requires
        0 <= i <= a.len(),
    ensures
        body_from(a + seq![SLASH] + b, i) == body_from(a, i) + body_from(b, 0),
    decreases a.len() - i,
{
    let s = a + seq![SLASH] + b;
    let x = a + seq![SLASH];
    assert(s =~= x + b);
    if i == a.len() {
        assert(s[i] == SLASH);
        assert(s.subrange(i, i) =~= Seq::<u8>::empty());
        lemma_body_shift(x, b, 0);
        assert(body_from(a, i) =~= Seq::<Component>::empty());
    } else {
        let j = next_sep(a, i);
        lemma_next_sep_bounds(a, i);
        assert forall|k: int| i <= k < j implies s[k] != SLASH by {
            assert(s[k] == a[k]);
        }
        lemma_next_sep_skip(s, i, j);
        assert(s[j] == SLASH);
        assert(next_sep(s, j) == j);
        assert(s.subrange(i, j) =~= a.subrange(i, j));
        if j < a.len() {
            lemma_body_concat(a, b, j + 1);
        } else {
            lemma_body_shift(x, b, 0);
        }
        assert(body_from(s, i) == segment_component(a.subrange(i, j)) + body_from(s, j + 1));
        assert(body_from(a, i) == segment_component(a.subrange(i, j)) + body_from(a, j + 1));
    }
}

/// The components of `base.join(p)` for a relative `p` and a non-empty
/// `base`: those of `base`, then those of the segments of `p`.
pub proof fn lemma_components_join(base: Seq<u8>, p: Seq<u8>)
    requires
        base.len() > 0,
        !has_root(p),
    ensures
        components(join_spec(base, p)) == components(base) + body_from(p, 0),
{
    let j = join_spec(base, p);
    if base.last() != SLASH {
        lemma_body_concat(base, p, 0);
        assert(j[0] == base[0]);
        if base.len() >= 2 {
            assert(j[1] == base[1]);
        } else {
            assert(j[1] == SLASH);
        }
    } else {
        let a = base.drop_last();
        assert(base =~= a + seq![SLASH] + Seq::<u8>::empty());
        assert(j =~= a + seq![SLASH] + p);
        lemma_body_concat(a, p, 0);
        lemma_body_concat(a, Seq::<u8>::empty(), 0);
        assert(body_from(Seq::<u8>::empty(), 0) =~= Seq::<Component>::empty());
        assert(j[0] == base[0]);
        if base.len() >= 2 {
            assert(j[1] == base[1]);
        }
    }
    assert(components(j) =~= components(base) + body_from(p, 0));
}

/// A name on its own is one `Normal` component.
pub proof fn lemma_body_name(n: Seq<u8>)
    requires
        valid_name(n),
    ensures
        body_from(n, 0) == seq![Component::Normal(n)],
        !has_root(n),
{
    lemma_next_sep_skip(n, 0, n.len() as int);
    assert(n.subrange(0, n.len() as int) =~= n);
    assert(body_from(n, n.len() as int + 1) =~= Seq::<Component>::empty());
    assert(n[0] != SLASH);
}

/// Joined names start with the first name.
pub proof fn lemma_join_names_prefix(ns: Seq<Seq<u8>>)
    requires
        ns.len() >= 1,
    ensures
        join_names(ns).len() >= ns[0].len(),
        join_names(ns).subrange(0, ns[0].len() as int) == ns[0],
    decreases ns.len(),
{
    if ns.len() > 1 {
        lemma_join_names_prefix(ns.drop_last());
        let jd = join_names(ns.drop_last());
        assert((jd + seq![SLASH] + ns.last()).subrange(0, ns[0].len() as int) =~= jd.subrange(
            0,
            ns[0].len() as int,
        ));
    } else {
        assert(ns[0].subrange(0, ns[0].len() as int) =~= ns[0]);
    }
}

/// Names joined by separators parse back into one `Normal` component each.
pub proof fn lemma_components_join_names(ns: Seq<Seq<u8>>)
    requires
        forall|i: int| 0 <= i < ns.len() ==> valid_name(#[trigger] ns[i]),
    ensures
        body_from(join_names(ns), 0) == normal_components(ns),
        components(join_names(ns)) == normal_components(ns),
        !has_root(join_names(ns)),
        !starts_with_cur_dir(join_names(ns)),
    decreases ns.len(),
{
    let j = join_names(ns);
    if ns.len() == 0 {
        assert(body_from(j, 0) =~= normal_components(ns));
    } else {
        if ns.len() == 1 {
            lemma_body_name(ns[0]);
            assert(normal_components(ns) =~= seq![Component::Normal(ns[0])]);
        } else {
            let d = ns.drop_last();
            assert forall|i: int| 0 <= i < d.len() implies valid_name(#[trigger] d[i]) by {
                assert(d[i] == ns[i]);
            }
            lemma_components_join_names(d);
            lemma_body_concat(join_names(d), ns.last(), 0);
            lemma_body_name(ns.last());
            assert(normal_components(ns) =~= normal_components(d) + seq![
                Component::Normal(ns.last()),
            ]);
        }
        lemma_join_names_prefix(ns);
        let n0 = ns[0];
        assert(valid_name(n0));
        assert(j[0] == n0[0]);
        assert(n0[0] != SLASH);
        if n0[0] == DOT {
            if n0.len() == 1 {
                assert(n0 =~= seq![DOT]);
            } else {
                assert(j[1] == n0[1]);
            }
        }
    }
    assert(components(j) =~= body_from(j, 0));
}

/// Parent steps parse back into that many `ParentDir` components.
pub proof fn lemma_components_parent_steps(k: nat)
    ensures
        body_from(parent_steps(k), 0) == parent_components(k),
        !has_root(parent_steps(k)),
        k > 0 ==> parent_steps(k).len() > 0 && parent_steps(k).last() == DOT,
    decreases k,
{
    let dd: Seq<u8> = seq![DOT, DOT];
    let p = parent_steps(k);
    if k == 0 {
        assert(body_from(p, 0) =~= parent_components(k));
    } else {
        lemma_next_sep_skip(dd, 0, 2);
        assert(dd.subrange(0, 2) =~= dd);
        assert(next_sep(dd, 2) == 2);
        assert(dd.len() == 2 && seq![DOT].len() == 1);
        assert(dd != seq![DOT]);
        assert(segment_component(dd) =~= seq![Component::ParentDir]);
        assert(body_from(dd, 3) =~= Seq::<Component>::empty());
        assert(body_from(dd, 0) =~= seq![Component::ParentDir]);
        if k == 1 {
            assert(body_from(p, 0) =~= parent_components(k));
        } else {
            lemma_components_parent_steps((k - 1) as nat);
            lemma_body_concat(parent_steps((k - 1) as nat), dd, 0);
            assert(body_from(p, 0) =~= parent_components(k));
            assert(p[0] == parent_steps((k - 1) as nat)[0]);
        }
    }
}

/// Every `Normal` component of a parsed path holds a valid name.
pub proof fn lemma_components_valid(p: Seq<u8>)
    ensures
        forall|i: int|
            0 <= i < components(p).len() ==> (#[trigger] components(p)[i] matches Component::Normal(
                n,
            ) ==> valid_name(n)),
{
    lemma_body_valid(p, 0);
    assert forall|i: int|
        0 <= i < components(p).len() implies (#[trigger] components(p)[i] matches Component::Normal(
        n,
    ) ==> valid_name(n)) by {
        if i >= components(p).len() - body_from(p, 0).len() {
            assert(components(p)[i] == body_from(p, 0)[i - (components(p).len() - body_from(
                p,
                0,
            ).len())]);
        }
    }
}

/// Every `Normal` component of the segments from `i` on holds a valid name.
pub proof fn lemma_body_valid(p: Seq<u8>, i: int)
    ensures
        forall|k: int|
            0 <= k < body_from(p, i).len() ==> (#[trigger] body_from(p, i)[k] matches Component::Normal(
                n,
            ) ==> valid_name(n)),
    decreases p.len() + 1 - i,
{
    if 0 <= i < p.len() {
        let j = next_sep(p, i);
        lemma_next_sep_bounds(p, i);
        lemma_body_valid(p, j + 1);
        let seg = p.subrange(i, j);
        let sc = segment_component(seg);
        assert forall|k: int| 0 <= k < sc.len() implies (#[trigger] sc[k] matches Component::Normal(
            n,
        ) ==> valid_name(n)) by {
            if let Component::Normal(n) = sc[k] {
                assert(n == seg);
                assert forall|x: int| 0 <= x < seg.len() implies seg[x] != SLASH by {
                    assert(seg[x] == p[i + x]);
                }
            }
        }
        let b = body_from(p, i);
        assert(b == sc + body_from(p, j + 1));
        assert forall|k: int| 0 <= k < b.len() implies (#[trigger] b[k] matches Component::Normal(
            n,
        ) ==> valid_name(n)) by {
            if k < sc.len() {
                assert(b[k] == sc[k]);
            } else {
                assert(b[k] == body_from(p, j + 1)[k - sc.len()]);
            }
        }
    }
}

/// Segments stand only for parent steps and names.
pub proof fn lemma_body_kinds(p: Seq<u8>, i: int)
    ensures
        forall|k: int|
            0 <= k < body_from(p, i).len() ==> (#[trigger] body_from(p, i)[k] is ParentDir
                || body_from(p, i)[k] is Normal),
    decreases p.len() + 1 - i,
{
    if 0 <= i < p.len() {
        let j = next_sep(p, i);
        lemma_next_sep_bounds(p, i);
        lemma_body_kinds(p, j + 1);
        let sc = segment_component(p.subrange(i, j));
        let b = body_from(p, i);
        assert(b == sc + body_from(p, j + 1));
        assert forall|k: int| 0 <= k < b.len() implies (#[trigger] b[k] is ParentDir
            || b[k] is Normal) by {
            if k < sc.len() {
                assert(b[k] == sc[k]);
            } else {
                assert(b[k] == body_from(p, j + 1)[k - sc.len()]);
            }
        }
    }
}

/// An absolute path starts with the root directory, followed by parent
/// steps and names only.
pub proof fn lemma_absolute_components(p: Seq<u8>)
    requires
        has_root(p),
    ensures
        components(p).len() >= 1,
        components(p)[0] == Component::RootDir,
        forall|k: int|
            1 <= k < components(p).len() ==> (#[trigger] components(p)[k] is ParentDir
                || components(p)[k] is Normal),
{
    lemma_body_kinds(p, 0);
    assert forall|k: int| 1 <= k < components(p).len() implies (#[trigger] components(p)[k] is ParentDir
        || components(p)[k] is Normal) by {
        assert(components(p)[k] == body_from(p, 0)[k - 1]);
    }
}

} // verus!
