//! Normalizing paths against a root directory: a path given relative to an
//! origin directory is made absolute, resolved lexically (`.` and `..` are
//! removed without looking at the file system) and then written relative to
//! the root directory.
use vstd::prelude::*;

use crate::path_model::{
    absolutize, absolutize_spec, append_bytes, append_joined_names, body_from, comps_view,
    components, has_root, join, join_names, join_spec, lemma_body_concat, lemma_components_join,
    lemma_absolute_components, lemma_components_join_names, lemma_components_parent_steps,
    lemma_components_valid,
    lemma_next_sep_skip, names_view, normal_components, parent_components, parent_steps,
    parent_steps_bytes, parse_components, valid_name, Component, PathComponent, DOT, SLASH,
};

verus! {

/// Why a path could not be normalized.
#[derive(Debug)]
pub enum NormalizeError {
    /// The path to normalize was empty.
    EmptyInput,
    /// The current directory is not absolute.
    CwdNotAbsolute,
    /// The path climbs above the root of the file system with `..`.
    InputOutsideFileSystemRoot,
}

/// What a lexically normalized path starts with.
#[derive(PartialEq, Eq, Structural, Clone, Copy, Debug)]
pub enum Anchor {
    /// The root directory `/`.
    Root,
    /// The current directory `.`.
    Current,
    /// Nothing: the path starts with a name, or is empty.
    Relative,
}

/// A lexically normalized path, as a mathematical value: its anchor followed
/// by names only.
pub struct LexicalForm {
    pub anchor: Anchor,
    pub names: Seq<Seq<u8>>,
}

/// A lexically normalized path.
pub struct LexicalPath {
    pub anchor: Anchor,
    pub names: Vec<Vec<u8>>,
}

impl View for LexicalPath {
    type V = LexicalForm;

    open spec fn view(&self) -> LexicalForm {
        LexicalForm { anchor: self.anchor, names: names_view(self.names@) }
    }
}

/// The components that an anchor stands for.
pub open spec fn anchor_components(a: Anchor) -> Seq<Component> {
    match a {
        Anchor::Root => seq![Component::RootDir],
        Anchor::Current => seq![Component::CurDir],
        Anchor::Relative => seq![],
    }
}

/// The number of components that an anchor stands for.
pub open spec fn anchor_len(a: Anchor) -> int {
    match a {
        Anchor::Relative => 0,
        _ => 1,
    }
}

/// The components of a lexically normalized path.
pub open spec fn lexical_components(l: LexicalForm) -> Seq<Component> {
    anchor_components(l.anchor) + normal_components(l.names)
}

/// The bytes of a lexically normalized path, as `PathBuf::push` builds them.
pub open spec fn render_lexical(l: LexicalForm) -> Seq<u8> {
    match l.anchor {
        Anchor::Root => seq![SLASH] + join_names(l.names),
        Anchor::Current => if l.names.len() == 0 {
            seq![DOT]
        } else {
            seq![DOT, SLASH] + join_names(l.names)
        },
        Anchor::Relative => join_names(l.names),
    }
}

/// The effect of one component on the names gathered so far: `..` removes
/// the last one (and fails when there is none), a name is added, and
/// anything else is skipped.
pub open spec fn step(names: Seq<Seq<u8>>, c: Component) -> Option<Seq<Seq<u8>>> {
    match c {
        Component::ParentDir => if names.len() == 0 {
            None
        } else {
            Some(names.drop_last())
        },
        Component::Normal(n) => Some(names.push(n)),
        _ => Some(names),
    }
}

/// The names left after applying the components in order, starting from `start`;
/// `None` when a `..` has nothing left to remove.
pub open spec fn resolve(start: Seq<Seq<u8>>, cs: Seq<Component>) -> Option<Seq<Seq<u8>>>
    decreases cs.len(),
{
    if cs.len() == 0 {
        Some(start)
    } else {
        match resolve(start, cs.drop_last()) {
            None => None,
            Some(ns) => step(ns, cs.last()),
        }
    }
}

/// The lexical normal form of a component sequence: the root or a leading `.`
/// is kept as the anchor, the rest is resolved by `resolve`. A path that
/// starts with `..`, or whose `..` climbs above its anchor, has none.
pub open spec fn lexical(cs: Seq<Component>) -> Option<LexicalForm> {
    if cs.len() == 0 {
        Some(LexicalForm { anchor: Anchor::Relative, names: seq![] })
    } else if cs[0] == Component::ParentDir {
        None
    } else {
        let anchor = match cs[0] {
            Component::RootDir => Anchor::Root,
            Component::CurDir => Anchor::Current,
            _ => Anchor::Relative,
        };
        let rest = if anchor == Anchor::Relative {
            cs
        } else {
            cs.skip(1)
        };
        match resolve(seq![], rest) {
            Some(ns) => Some(LexicalForm { anchor, names: ns }),
            None => None,
        }
    }
}

/// Whether the root, with its last `k` components removed (none of them the
/// root directory), is a component-wise prefix of the target.
pub open spec fn climbs(rc: Seq<Component>, tc: Seq<Component>, k: int) -> bool {
    &&& 0 <= k <= rc.len()
    &&& forall|j: int| rc.len() - k <= j < rc.len() ==> rc[j] != Component::RootDir
    &&& rc.len() - k <= tc.len()
    &&& tc.subrange(0, rc.len() - k) == rc.subrange(0, rc.len() - k)
}

/// The least number of parent steps from the root to an ancestor of the target.
pub open spec fn least_climb(rc: Seq<Component>, tc: Seq<Component>) -> int {
    choose|k: int| climbs(rc, tc, k) && forall|j: int| 0 <= j < k ==> !climbs(rc, tc, j)
}

/// The part of a lexically normalized path after its first `m` components,
/// as `Path::strip_prefix` leaves it.
pub open spec fn remainder(l: LexicalForm, m: int) -> Seq<u8> {
    if m == 0 {
        render_lexical(l)
    } else {
        join_names(l.names.skip(m - anchor_len(l.anchor)))
    }
}

/// The target written relative to the root: as many `..` as it takes to
/// climb from the root to an ancestor of the target, followed by the rest of
/// the target; the target itself when no ancestor of the root is one of it.
pub open spec fn relativize(l: LexicalForm, rc: Seq<Component>) -> Seq<u8> {
    let tc = lexical_components(l);
    if exists|k: int| climbs(rc, tc, k) {
        let k = least_climb(rc, tc);
        join_spec(parent_steps(k as nat), remainder(l, rc.len() - k))
    } else {
        render_lexical(l)
    }
}

/// What normalizing `input` gives, for a normalizer with the given (absolute)
/// root and origin directories.
pub open spec fn normalized(root: Seq<u8>, origin: Seq<u8>, input: Seq<u8>) -> Result<
    Seq<u8>,
    NormalizeError,
> {
    if input.len() == 0 {
        Err(NormalizeError::EmptyInput)
    } else {
        match lexical(components(absolutize_spec(input, origin))) {
            None => Err(NormalizeError::InputOutsideFileSystemRoot),
            Some(l) => Ok(relativize(l, components(root))),
        }
    }
}

/// The bytes of a normalization result.
pub open spec fn result_view(r: Result<Vec<u8>, NormalizeError>) -> Result<
    Seq<u8>,
    NormalizeError,
> {
    match r {
        Ok(v) => Ok(v@),
        Err(e) => Err(e),
    }
}

/// Once resolving fails, resolving more components fails too.
pub proof fn lemma_resolve_none_extends(start: Seq<Seq<u8>>, a: Seq<Component>, b: Seq<Component>)
    requires
        resolve(start, a) is None,
    ensures
        resolve(start, a + b) is None,
    decreases b.len(),
{
    if b.len() > 0 {
        assert((a + b).drop_last() =~= a + b.drop_last());
        lemma_resolve_none_extends(start, a, b.drop_last());
    } else {
        assert(a + b =~= a);
    }
}

/// When some climb works, there is a least one.
pub proof fn lemma_least_climb(rc: Seq<Component>, tc: Seq<Component>, k: int)
    requires
        climbs(rc, tc, k),
    ensures
        exists|m: int| climbs(rc, tc, m) && forall|j: int| 0 <= j < m ==> !climbs(rc, tc, j),
    decreases k,
{
    if exists|j: int| 0 <= j < k && climbs(rc, tc, j) {
        let j = choose|j: int| 0 <= j < k && climbs(rc, tc, j);
        lemma_least_climb(rc, tc, j);
    } else {
        assert(climbs(rc, tc, k) && forall|j: int| 0 <= j < k ==> !climbs(rc, tc, j));
    }
}

/// A copy of a byte string.
fn copy_bytes(b: &[u8]) -> (r: Vec<u8>)
    ensures
        r@ == b@,
{
    let mut r: Vec<u8> = Vec::new();
    append_bytes(&mut r, b);
    assert(r@ =~= b@);
    r
}

/// Whether two byte strings are equal.
fn bytes_eq(a: &[u8], b: &[u8]) -> (r: bool)
    ensures
        r == (a@ == b@),
{
    if a.len() != b.len() {
        return false;
    }
    let mut i: usize = 0;
    while i < a.len()
        invariant
            i <= a.len() == b.len(),
            forall|j: int| 0 <= j < i ==> a@[j] == b@[j],
        decreases a.len() - i,
    {
        if a[i] != b[i] {
            return false;
        }
        i += 1;
    }
    assert(a@ =~= b@);
    true
}

/// Whether two components are equal.
fn same_component(a: &PathComponent, b: &PathComponent) -> (r: bool)
    ensures
        r == (a@ == b@),
{
    match (a, b) {
        (PathComponent::RootDir, PathComponent::RootDir) => true,
        (PathComponent::CurDir, PathComponent::CurDir) => true,
        (PathComponent::ParentDir, PathComponent::ParentDir) => true,
        (PathComponent::Normal(x), PathComponent::Normal(y)) => bytes_eq(x.as_slice(), y.as_slice()),
        _ => false,
    }
}

/// Whether the first `m` components of `rc` are the first `m` of `tc`.
fn is_component_prefix(rc: &Vec<PathComponent>, m: usize, tc: &Vec<PathComponent>) -> (r: bool)
    requires
        m <= rc.len(),
    ensures
        r == (m <= tc.len() && comps_view(tc@).subrange(0, m as int) == comps_view(
            rc@,
        ).subrange(0, m as int)),
{
    if m > tc.len() {
        return false;
    }
    let ghost rv = comps_view(rc@);
    let ghost tv = comps_view(tc@);
    let mut i: usize = 0;
    while i < m
        invariant
            i <= m <= rc.len(),
            m <= tc.len(),
            rv == comps_view(rc@),
            tv == comps_view(tc@),
            forall|j: int| 0 <= j < i ==> rv[j] == tv[j],
        decreases m - i,
    {
        if !same_component(&rc[i], &tc[i]) {
            assert(tv.subrange(0, m as int)[i as int] != rv.subrange(0, m as int)[i as int]);
            return false;
        }
        i += 1;
    }
    assert(tv.subrange(0, m as int) =~= rv.subrange(0, m as int));
    true
}

impl LexicalPath {
    /// The bytes of the path.
    pub fn to_bytes(&self) -> (r: Vec<u8>)
        ensures
            r@ == render_lexical(self@),
    {
        let mut r: Vec<u8> = Vec::new();
        match self.anchor {
            Anchor::Root => r.push(SLASH),
            Anchor::Current => {
                r.push(DOT);
                if self.names.len() > 0 {
                    r.push(SLASH);
                }
            },
            Anchor::Relative => {},
        }
        let ghost before = r@;
        append_joined_names(&mut r, &self.names, 0);
        assert(names_view(self.names@).skip(0) =~= names_view(self.names@));
        proof {
            if self.anchor == Anchor::Current && self.names.len() == 0 {
                assert(join_names(names_view(self.names@)) =~= Seq::<u8>::empty());
            }
        }
        assert(r@ =~= render_lexical(self@));
        r
    }

    /// The components of the path.
    pub fn components(&self) -> (cs: Vec<PathComponent>)
        ensures
            comps_view(cs@) == lexical_components(self@),
    {
        let mut cs: Vec<PathComponent> = Vec::new();
        match self.anchor {
            Anchor::Root => cs.push(PathComponent::RootDir),
            Anchor::Current => cs.push(PathComponent::CurDir),
            Anchor::Relative => {},
        }
        let ghost head = comps_view(cs@);
        assert(head =~= anchor_components(self.anchor));
        let mut i: usize = 0;
        while i < self.names.len()
            invariant
                i <= self.names.len(),
                head == anchor_components(self.anchor),
                comps_view(cs@) == head + normal_components(
                    names_view(self.names@).subrange(0, i as int),
                ),
            decreases self.names.len() - i,
        {
            let ghost nv = names_view(self.names@);
            let ghost before = comps_view(cs@);
            cs.push(PathComponent::Normal(copy_bytes(self.names[i].as_slice())));
            assert(nv.subrange(0, i + 1) =~= nv.subrange(0, i as int).push(nv[i as int]));
            assert(normal_components(nv.subrange(0, i + 1)) =~= normal_components(
                nv.subrange(0, i as int),
            ).push(Component::Normal(nv[i as int])));
            assert(comps_view(cs@) =~= before.push(Component::Normal(nv[i as int])));
            assert(comps_view(cs@) =~= head + normal_components(
                names_view(self.names@).subrange(0, i + 1),
            ));
            i += 1;
        }
        assert(names_view(self.names@).subrange(0, self.names@.len() as int) =~= names_view(
            self.names@,
        ));
        cs
    }
}

/// The lexical normal form of a path: `.` segments are dropped and each `..`
/// removes the name before it, without looking at the file system.
pub fn normalize_lexically(path: &[u8]) -> (r: Result<LexicalPath, NormalizeError>)
    ensures
        match r {
            Ok(lp) => lexical(components(path@)) == Some(lp@),
            Err(e) => lexical(components(path@)) is None && e == NormalizeError::InputOutsideFileSystemRoot,
        },
{
    let cs = parse_components(path);
    let ghost cv = comps_view(cs@);
    if cs.len() == 0 {
        let lp = LexicalPath { anchor: Anchor::Relative, names: Vec::new() };
        assert(lp@.names =~= Seq::<Seq<u8>>::empty());
        return Ok(lp);
    }
    let (anchor, start): (Anchor, usize) = match &cs[0] {
        PathComponent::RootDir => (Anchor::Root, 1),
        PathComponent::CurDir => (Anchor::Current, 1),
        PathComponent::ParentDir => {
            return Err(NormalizeError::InputOutsideFileSystemRoot);
        },
        PathComponent::Normal(_) => (Anchor::Relative, 0),
    };
    let mut names: Vec<Vec<u8>> = Vec::new();
    let mut i: usize = start;
    assert(cv.subrange(start as int, start as int) =~= Seq::<Component>::empty());
    assert(names_view(names@) =~= Seq::<Seq<u8>>::empty());
    assert(cv.skip(0) =~= cv);
    assert(lexical(cv) == match resolve(seq![], cv.skip(start as int)) {
        Some(ns) => Some(LexicalForm { anchor, names: ns }),
        None => None,
    });
    while i < cs.len()
        invariant
            start <= i <= cs.len(),
            start <= 1,
            cv == comps_view(cs@),
            cv == components(path@),
            lexical(cv) == match resolve(seq![], cv.skip(start as int)) {
                Some(ns) => Some(LexicalForm { anchor, names: ns }),
                None => None,
            },
            resolve(seq![], cv.subrange(start as int, i as int)) == Some(names_view(names@)),
        decreases cs.len() - i,
    {
        let ghost prev = names_view(names@);
        assert(cv.subrange(start as int, i + 1).drop_last() =~= cv.subrange(start as int, i as int));
        match &cs[i] {
            PathComponent::ParentDir => {
                if names.len() == 0 {
                    proof {
                        let done = cv.subrange(start as int, i + 1);
                        assert(done.last() == Component::ParentDir);
                        lemma_resolve_none_extends(seq![], done, cv.subrange(i + 1, cv.len() as int));
                        assert(done + cv.subrange(i + 1, cv.len() as int) =~= cv.skip(start as int));
                        assert(cv.skip(0) =~= cv);
                    }
                    return Err(NormalizeError::InputOutsideFileSystemRoot);
                }
                names.pop();
                assert(names_view(names@) =~= prev.drop_last());
            },
            PathComponent::Normal(n) => {
                names.push(copy_bytes(n.as_slice()));
                assert(names_view(names@) =~= prev.push(n@));
            },
            _ => {},
        }
        i += 1;
    }
    assert(cv.subrange(start as int, cv.len() as int) =~= cv.skip(start as int));
    assert(cv.skip(0) =~= cv);
    Ok(LexicalPath { anchor, names })
}

/// The part of `target` after its first `m` components.
fn remainder_bytes(target: &LexicalPath, m: usize) -> (r: Vec<u8>)
    requires
        m <= lexical_components(target@).len(),
    ensures
        r@ == remainder(target@, m as int),
{
    if m == 0 {
        target.to_bytes()
    } else {
        let skip: usize = match target.anchor {
            Anchor::Relative => m,
            _ => m - 1,
        };
        let mut r: Vec<u8> = Vec::new();
        append_joined_names(&mut r, &target.names, skip);
        assert(r@ =~= remainder(target@, m as int));
        r
    }
}

/// `target` written relative to `root`: `..` up to the nearest ancestor of
/// `root` that contains `target`, then the rest of `target`.
///
/// For an absolute target holding names only and an absolute root without
/// `..`, the result is parent steps followed by names, and following it from
/// the root leads back to the target.
fn normalize_to_root(target: &LexicalPath, root: &[u8]) -> (r: Vec<u8>)
    ensures
        r@ == relativize(target@, components(root@)),
        absolute_without_parent_steps(root@) && target@.anchor == Anchor::Root && all_valid(
            target@.names,
        ) ==> {
            &&& !has_root(r@)
            &&& parent_steps_then_names(components(r@))
            &&& lexical(components(join_spec(root@, r@))) == Some(target@)
        },
{
    let r = climb_to_root(target, root);
    proof {
        if absolute_without_parent_steps(root@) && target@.anchor == Anchor::Root && all_valid(
            target@.names,
        ) {
            lemma_clean_root(root@);
            lemma_relativize_from_clean_root(target@, root@);
        }
    }
    r
}

/// `target` written relative to `root`, by climbing from `root` one
/// component at a time until it is a prefix of `target`.
fn climb_to_root(target: &LexicalPath, root: &[u8]) -> (r: Vec<u8>)
    ensures
        r@ == relativize(target@, components(root@)),
{
    let rc = parse_components(root);
    let tc = target.components();
    let ghost rv = comps_view(rc@);
    let ghost tv = comps_view(tc@);
    let mut k: usize = 0;
    loop
        invariant
            k <= rc.len(),
            rv == comps_view(rc@),
            rv == components(root@),
            tv == comps_view(tc@),
            tv == lexical_components(target@),
            forall|j: int| rv.len() - k <= j < rv.len() ==> rv[j] != Component::RootDir,
            forall|j: int| 0 <= j < k ==> !climbs(rv, tv, j),
        decreases rc.len() - k,
    {
        let m = rc.len() - k;
        if is_component_prefix(&rc, m, &tc) {
            assert(climbs(rv, tv, k as int));
            proof {
                lemma_least_climb(rv, tv, k as int);
                let least = least_climb(rv, tv);
                if least < k {
                    assert(!climbs(rv, tv, least));
                }
                if least > k {
                    assert(!climbs(rv, tv, k as int));
                }
            }
            let steps = parent_steps_bytes(k);
            let rest = remainder_bytes(target, m);
            return join(steps.as_slice(), rest.as_slice());
        }
        let can_climb = m > 0 && match &rc[m - 1] {
            PathComponent::RootDir => false,
            _ => true,
        };
        if !can_climb {
            proof {
                assert forall|j: int| #![trigger climbs(rv, tv, j)] 0 <= j implies !climbs(rv, tv, j) by {
                    if j > k {
                        if m > 0 {
                            assert(rv[m - 1] == Component::RootDir);
                        }
                    }
                }
            }
            return target.to_bytes();
        }
        k += 1;
    }
}

/// Normalizes paths given relative to an origin directory into paths
/// relative to a root directory.
pub struct Normalizer {
    root: Vec<u8>,
    origin: Vec<u8>,
}

impl Normalizer {
    /// The root directory, made absolute.
    pub closed spec fn root_path(&self) -> Seq<u8> {
        self.root@
    }

    /// The origin directory, made absolute.
    pub closed spec fn origin_path(&self) -> Seq<u8> {
        self.origin@
    }

    /// A normalizer for the given root and origin directories, each made
    /// absolute against the current directory `cwd` when it is relative.
    pub fn new_with_cwd(root: &[u8], origin: &[u8], cwd: &[u8]) -> (n: Normalizer)
        ensures
            n.root_path() == absolutize_spec(root@, cwd@),
            n.origin_path() == absolutize_spec(origin@, cwd@),
    {
        Normalizer { root: absolutize(root, cwd), origin: absolutize(origin, cwd) }
    }

    /// Normalizes `input`, a path relative to the origin directory (or an
    /// absolute one): it is made absolute, resolved lexically, and written
    /// relative to the root directory.
    pub fn normalize_path(&self, input: &[u8]) -> (r: Result<Vec<u8>, NormalizeError>)
        ensures
            result_view(r) == normalized(self.root_path(), self.origin_path(), input@),
            r matches Err(NormalizeError::EmptyInput) <==> input@.len() == 0,
    {
        if input.len() == 0 {
            return Err(NormalizeError::EmptyInput);
        }
        let input = absolutize(input, self.origin.as_slice());
        let normalized_input = normalize_lexically(input.as_slice())?;
        Ok(normalize_to_root(&normalized_input, self.root.as_slice()))
    }
}

/// Resolving a concatenation resolves its parts in turn.
pub proof fn lemma_resolve_concat(start: Seq<Seq<u8>>, a: Seq<Component>, b: Seq<Component>)
    ensures
        resolve(start, a + b) == match resolve(start, a) {
            None => None,
            Some(x) => resolve(x, b),
        },
    decreases b.len(),
{
    if b.len() == 0 {
        assert(a + b =~= a);
    } else {
        assert((a + b).drop_last() =~= a + b.drop_last());
        assert((a + b).last() == b.last());
        lemma_resolve_concat(start, a, b.drop_last());
    }
}

/// Names only are added one after the other.
pub proof fn lemma_resolve_normals(start: Seq<Seq<u8>>, ns: Seq<Seq<u8>>)
    ensures
        resolve(start, normal_components(ns)) == Some(start + ns),
    decreases ns.len(),
{
    if ns.len() == 0 {
        assert(start + ns =~= start);
    } else {
        assert(normal_components(ns).drop_last() =~= normal_components(ns.drop_last()));
        lemma_resolve_normals(start, ns.drop_last());
        assert((start + ns.drop_last()).push(ns.last()) =~= start + ns);
    }
}

/// `k` parent steps remove the last `k` names.
pub proof fn lemma_resolve_parents(start: Seq<Seq<u8>>, k: nat)
    requires
        k <= start.len(),
    ensures
        resolve(start, parent_components(k)) == Some(start.subrange(0, start.len() - k)),
    decreases k,
{
    if k == 0 {
        assert(start.subrange(0, start.len() as int) =~= start);
    } else {
        assert(parent_components(k).drop_last() =~= parent_components((k - 1) as nat));
        lemma_resolve_parents(start, (k - 1) as nat);
        assert(start.subrange(0, start.len() - (k - 1)).drop_last() =~= start.subrange(
            0,
            start.len() - k,
        ));
    }
}

/// Whether every `Normal` component holds a valid name.
pub open spec fn names_valid_in(cs: Seq<Component>) -> bool {
    forall|i: int|
        0 <= i < cs.len() ==> (#[trigger] cs[i] matches Component::Normal(n) ==> valid_name(n))
}

/// Whether every name is valid.
pub open spec fn all_valid(ns: Seq<Seq<u8>>) -> bool {
    forall|i: int| 0 <= i < ns.len() ==> valid_name(#[trigger] ns[i])
}

/// Resolving valid names keeps only valid names.
pub proof fn lemma_resolve_valid(start: Seq<Seq<u8>>, cs: Seq<Component>)
    requires
        all_valid(start),
        names_valid_in(cs),
    ensures
        resolve(start, cs) matches Some(ns) ==> all_valid(ns),
    decreases cs.len(),
{
    if cs.len() > 0 {
        let d = cs.drop_last();
        assert forall|i: int| 0 <= i < d.len() implies (#[trigger] d[i] matches Component::Normal(
            n,
        ) ==> valid_name(n)) by {
            assert(d[i] == cs[i]);
        }
        lemma_resolve_valid(start, d);
        if let Some(ns) = resolve(start, d) {
            let last = cs.last();
            assert(cs[cs.len() - 1] == last);
            if let Component::Normal(n) = last {
                assert(valid_name(n));
                assert forall|i: int| 0 <= i < ns.push(n).len() implies valid_name(
                    #[trigger] ns.push(n)[i],
                ) by {
                    if i < ns.len() {
                        assert(ns.push(n)[i] == ns[i]);
                    }
                }
            }
            if last == Component::ParentDir && ns.len() > 0 {
                assert forall|i: int| 0 <= i < ns.drop_last().len() implies valid_name(
                    #[trigger] ns.drop_last()[i],
                ) by {
                    assert(ns.drop_last()[i] == ns[i]);
                }
            }
        }
    }
}

/// The names of the lexical normal form of a parsed path are valid names.
pub proof fn lemma_lexical_valid(p: Seq<u8>)
    ensures
        lexical(components(p)) matches Some(l) ==> all_valid(l.names),
{
    let cs = components(p);
    lemma_components_valid(p);
    assert(names_valid_in(cs));
    if cs.len() > 0 && cs[0] != Component::ParentDir {
        let rest = cs.skip(1);
        assert forall|i: int| 0 <= i < rest.len() implies (#[trigger] rest[i] matches Component::Normal(
            n,
        ) ==> valid_name(n)) by {
            assert(rest[i] == cs[i + 1]);
        }
        lemma_resolve_valid(seq![], rest);
        lemma_resolve_valid(seq![], cs);
    }
}

/// A lexically normalized path with valid names parses back into its components.
pub proof fn lemma_components_render(l: LexicalForm)
    requires
        all_valid(l.names),
    ensures
        components(render_lexical(l)) == lexical_components(l),
{
    let jn = join_names(l.names);
    lemma_components_join_names(l.names);
    let e = Seq::<u8>::empty();
    match l.anchor {
        Anchor::Root => {
            assert(render_lexical(l) =~= e + seq![SLASH] + jn);
            lemma_body_concat(e, jn, 0);
            assert(body_from(e, 0) =~= Seq::<Component>::empty());
        },
        Anchor::Current => {
            let d: Seq<u8> = seq![DOT];
            lemma_next_sep_skip(d, 0, 1);
            assert(d.subrange(0, 1) =~= d);
            assert(body_from(d, 2) =~= Seq::<Component>::empty());
            assert(body_from(d, 0) =~= Seq::<Component>::empty());
            if l.names.len() > 0 {
                assert(render_lexical(l) =~= d + seq![SLASH] + jn);
                lemma_body_concat(d, jn, 0);
            } else {
                assert(normal_components(l.names) =~= Seq::<Component>::empty());
            }
        },
        Anchor::Relative => {},
    }
    assert(components(render_lexical(l)) =~= lexical_components(l));
}

/// The lexical normal form of the components `anchor + names`, for valid names.
pub proof fn lemma_lexical_of_form(l: LexicalForm)
    requires
        all_valid(l.names),
        l.anchor == Anchor::Relative ==> l.names.len() > 0,
    ensures
        lexical(lexical_components(l)) == Some(l),
{
    let cs = lexical_components(l);
    let nc = normal_components(l.names);
    lemma_resolve_normals(seq![], l.names);
    assert(Seq::<Seq<u8>>::empty() + l.names =~= l.names);
    if l.anchor != Anchor::Relative {
        assert(cs.skip(1) =~= nc);
    } else {
        assert(cs =~= nc);
        assert(cs[0] == Component::Normal(l.names[0]));
    }
}

/// A lexically normalized path is its own normal form: normalizing the bytes
/// that `normalize_lexically` gives back yields the same path again.
pub proof fn law_lexical_form_is_stable(p: Seq<u8>)
    ensures
        lexical(components(p)) matches Some(l) ==> lexical(components(render_lexical(l))) == Some(
            l,
        ),
{
    if let Some(l) = lexical(components(p)) {
        lemma_lexical_valid(p);
        lemma_components_render(l);
        if l.anchor == Anchor::Relative && l.names.len() == 0 {
            assert(lexical_components(l) =~= Seq::<Component>::empty());
            assert(l.names =~= Seq::<Seq<u8>>::empty());
        } else {
            lemma_lexical_of_form(l);
        }
    }
}

/// Whether a component sequence is that of a clean absolute path: the root
/// directory followed by names only.
pub open spec fn clean_absolute(cs: Seq<Component>) -> bool {
    &&& cs.len() >= 1
    &&& cs[0] == Component::RootDir
    &&& forall|j: int| 1 <= j < cs.len() ==> #[trigger] cs[j] is Normal
}

/// The names of a clean absolute component sequence.
pub open spec fn clean_names(cs: Seq<Component>) -> Seq<Seq<u8>> {
    Seq::new((cs.len() - 1) as nat, |j: int| cs[j + 1]->Normal_0)
}

/// A clean absolute component sequence is the root directory and its names.
pub proof fn lemma_clean_split(cs: Seq<Component>)
    requires
        clean_absolute(cs),
    ensures
        cs == seq![Component::RootDir] + normal_components(clean_names(cs)),
{
    assert forall|j: int| 1 <= j < cs.len() implies cs[j] == Component::Normal(
        #[trigger] clean_names(cs)[j - 1],
    ) by {
        assert(cs[j] is Normal);
    }
    assert(cs =~= seq![Component::RootDir] + normal_components(clean_names(cs)));
}

/// The facts about the climb from a clean absolute root to an absolute
/// lexical target: it exists, stays below the root directory, and the names
/// it keeps are shared by root and target.
pub proof fn lemma_climb_from_clean_root(l: LexicalForm, rc: Seq<Component>)
    requires
        clean_absolute(rc),
        l.anchor == Anchor::Root,
    ensures
        exists|k: int| climbs(rc, lexical_components(l), k),
        ({
            let k = least_climb(rc, lexical_components(l));
            let m = rc.len() - k;
            &&& climbs(rc, lexical_components(l), k)
            &&& forall|j: int| 0 <= j < k ==> !climbs(rc, lexical_components(l), j)
            &&& 1 <= m <= rc.len()
            &&& m - 1 <= l.names.len()
            &&& l.names.subrange(0, m - 1) == clean_names(rc).subrange(0, m - 1)
        }),
{
    let tc = lexical_components(l);
    let rn = clean_names(rc);
    lemma_clean_split(rc);
    let top = rc.len() - 1;
    assert(tc.subrange(0, 1) =~= rc.subrange(0, 1));
    assert(climbs(rc, tc, top));
    lemma_least_climb(rc, tc, top);
    let k = least_climb(rc, tc);
    let m = rc.len() - k;
    assert(climbs(rc, tc, k));
    if m < 1 {
        assert(rc[0] != Component::RootDir);
    }
    assert forall|j: int| 0 <= j < m - 1 implies l.names[j] == rn[j] by {
        assert(tc.subrange(0, m)[j + 1] == rc.subrange(0, m)[j + 1]);
        assert(tc[j + 1] == Component::Normal(l.names[j]));
        assert(rc[j + 1] == Component::Normal(rn[j]));
    }
    assert(l.names.subrange(0, m - 1) =~= rn.subrange(0, m - 1));
}

/// Whether a path is absolute and holds no `..`.
pub open spec fn absolute_without_parent_steps(p: Seq<u8>) -> bool {
    &&& has_root(p)
    &&& forall|i: int| 0 <= i < components(p).len() ==> #[trigger] components(p)[i]
        != Component::ParentDir
}

/// Whether a component sequence holds parent steps and names only, every
/// parent step before every name.
pub open spec fn parent_steps_then_names(cs: Seq<Component>) -> bool {
    &&& forall|i: int| 0 <= i < cs.len() ==> (#[trigger] cs[i] is ParentDir || cs[i] is Normal)
    &&& forall|i: int, j: int|
        0 <= i < j < cs.len() && #[trigger] cs[j] is ParentDir ==> #[trigger] cs[i] is ParentDir
}

/// The components of an absolute path without `..` are clean.
pub proof fn lemma_clean_root(p: Seq<u8>)
    requires
        absolute_without_parent_steps(p),
    ensures
        clean_absolute(components(p)),
{
    lemma_absolute_components(p);
    let cs = components(p);
    assert forall|j: int| 1 <= j < cs.len() implies #[trigger] cs[j] is Normal by {
        assert(cs[j] != Component::ParentDir);
    }
}

/// The path from a clean absolute root to an absolute lexical target with
/// valid names: parent steps then names, and following it from the root
/// leads back to the target.
#[verifier::spinoff_prover]
pub proof fn lemma_relativize_from_clean_root(l: LexicalForm, root: Seq<u8>)
    requires
        has_root(root),
        clean_absolute(components(root)),
        l.anchor == Anchor::Root,
        all_valid(l.names),
    ensures
        !has_root(relativize(l, components(root))),
        parent_steps_then_names(components(relativize(l, components(root)))),
        lexical(components(join_spec(root, relativize(l, components(root))))) == Some(l),
{
    let rc = components(root);
    let ns = l.names;
    let rn = clean_names(rc);
    lemma_clean_split(rc);
    lemma_climb_from_clean_root(l, rc);
    let k = least_climb(rc, lexical_components(l));
    let m = rc.len() - k;
    let tail = ns.skip(m - 1);
    assert(all_valid(tail)) by {
        assert forall|i: int| 0 <= i < tail.len() implies valid_name(#[trigger] tail[i]) by {
            assert(tail[i] == ns[i + m - 1]);
        }
    }
    let rem = join_names(tail);
    assert(remainder(l, m) == rem);
    let out = join_spec(parent_steps(k as nat), rem);
    assert(relativize(l, rc) == out);
    lemma_components_join_names(tail);
    lemma_components_parent_steps(k as nat);
    let oc = parent_components(k as nat) + normal_components(tail);
    assert(body_from(out, 0) == oc) by {
        if k == 0 {
            assert(out =~= rem);
            assert(parent_components(0) =~= Seq::<Component>::empty());
        } else {
            assert(out =~= parent_steps(k as nat) + seq![SLASH] + rem);
            lemma_body_concat(parent_steps(k as nat), rem, 0);
        }
    }
    assert(!has_root(out)) by {
        if k > 0 {
            assert(out[0] == parent_steps(k as nat)[0]);
        }
    }
    assert(components(out) == oc) by {
        if k > 0 {
            lemma_parent_steps_start(k as nat);
            assert(out[0] == parent_steps(k as nat)[0]);
            assert(out[1] == parent_steps(k as nat)[1]);
        }
        assert(components(out) =~= body_from(out, 0));
    }
    assert(parent_steps_then_names(oc)) by {
        assert forall|i: int| 0 <= i < oc.len() implies (#[trigger] oc[i] is ParentDir
            || oc[i] is Normal) by {
            if i >= k {
                assert(oc[i] == Component::Normal(tail[i - k]));
            }
        }
        assert forall|i: int, j: int|
            0 <= i < j < oc.len() && #[trigger] oc[j] is ParentDir implies #[trigger] oc[i] is ParentDir by {
            if j >= k {
                assert(oc[j] == Component::Normal(tail[j - k]));
            }
        }
    }
    lemma_components_join(root, out);
    let joined = components(join_spec(root, out));
    assert(joined == rc + oc);
    assert(joined.skip(1) =~= normal_components(rn) + parent_components(k as nat)
        + normal_components(tail));
    lemma_resolve_concat(seq![], normal_components(rn) + parent_components(k as nat), normal_components(tail));
    lemma_resolve_concat(seq![], normal_components(rn), parent_components(k as nat));
    lemma_resolve_normals(seq![], rn);
    assert(Seq::<Seq<u8>>::empty() + rn =~= rn);
    lemma_resolve_parents(rn, k as nat);
    let kept = rn.subrange(0, rn.len() - k);
    assert(kept =~= ns.subrange(0, m - 1));
    lemma_resolve_normals(kept, tail);
    assert(kept + tail =~= ns);
}

/// Parent steps start with `..`.
proof fn lemma_parent_steps_start(k: nat)
    requires
        k >= 1,
    ensures
        parent_steps(k).len() >= 2,
        parent_steps(k)[0] == DOT,
        parent_steps(k)[1] == DOT,
    decreases k,
{
    if k > 1 {
        lemma_parent_steps_start((k - 1) as nat);
    }
}

/// The normalized path is parent steps followed by names, and it leads back
/// to the input: for an absolute root directory without `..` and an absolute
/// origin directory, following the normalized path from the root reaches,
/// lexically, the same place as the input followed from the origin.
pub proof fn law_result_leads_back_to_input(root: Seq<u8>, origin: Seq<u8>, input: Seq<u8>)
    requires
        absolute_without_parent_steps(root),
        has_root(origin),
        normalized(root, origin, input) is Ok,
    ensures
        !has_root(normalized(root, origin, input)->Ok_0),
        parent_steps_then_names(components(normalized(root, origin, input)->Ok_0)),
        lexical(components(join_spec(root, normalized(root, origin, input)->Ok_0))) == lexical(
            components(absolutize_spec(input, origin)),
        ),
{
    let abs = absolutize_spec(input, origin);
    let l = lexical(components(abs))->Some_0;
    assert(has_root(abs));
    assert(components(abs)[0] == Component::RootDir);
    assert(l.anchor == Anchor::Root);
    lemma_lexical_valid(abs);
    lemma_clean_root(root);
    lemma_relativize_from_clean_root(l, root);
}

/// Writing an absolute target without `.` or `..` relative to an absolute
/// root without `..` gives parent steps followed by names, and following that
/// path from the root leads back to the target.
pub proof fn law_relative_path_leads_back_to_target(target: Seq<u8>, root: Seq<u8>)
    requires
        has_root(target),
        forall|i: int|
            0 <= i < components(target).len() ==> !(#[trigger] components(target)[i] is CurDir)
                && !(components(target)[i] is ParentDir),
        absolute_without_parent_steps(root),
    ensures
        lexical(components(target)) is Some,
        parent_steps_then_names(
            components(relativize(lexical(components(target))->Some_0, components(root))),
        ),
        lexical(
            components(
                join_spec(root, relativize(lexical(components(target))->Some_0, components(root))),
            ),
        ) == lexical(components(target)),
{
    let tc = components(target);
    lemma_absolute_components(target);
    assert forall|j: int| 1 <= j < tc.len() implies #[trigger] tc[j] is Normal by {
        assert(!(tc[j] is CurDir) && !(tc[j] is ParentDir));
    }
    assert(clean_absolute(tc));
    lemma_clean_split(tc);
    assert(tc.skip(1) =~= normal_components(clean_names(tc)));
    lemma_resolve_normals(seq![], clean_names(tc));
    assert(Seq::<Seq<u8>>::empty() + clean_names(tc) =~= clean_names(tc));
    let l = lexical(tc)->Some_0;
    lemma_lexical_valid(target);
    lemma_clean_root(root);
    lemma_relativize_from_clean_root(l, root);
}

/// Normalizing fails only on an empty input, or when the input climbs above
/// the top of its path with `..`; every other input, wherever it lies
/// relative to the root, is normalized.
pub proof fn law_only_empty_or_escaping_inputs_fail(root: Seq<u8>, origin: Seq<u8>, input: Seq<u8>)
    ensures
        normalized(root, origin, input) == Err::<Seq<u8>, NormalizeError>(
            NormalizeError::EmptyInput,
        ) <==> input.len() == 0,
        normalized(root, origin, input) == Err::<Seq<u8>, NormalizeError>(
            NormalizeError::InputOutsideFileSystemRoot,
        ) <==> input.len() > 0 && lexical(components(absolutize_spec(input, origin))) is None,
        input.len() > 0 && lexical(components(absolutize_spec(input, origin))) is Some
            ==> normalized(root, origin, input) is Ok,
        normalized(root, origin, input) matches Err(e) ==> e != NormalizeError::CwdNotAbsolute,
{
}

/// For an absolute origin, an input climbs above the top of its path only
/// when some `..` in it has no name before it to remove, counting the
/// origin's names: an absolute input, or a relative one below the origin,
/// whose `..` stay within the names gathered so far, is always normalized.
pub proof fn law_absolute_input_fails_only_above_the_top(
    root: Seq<u8>,
    origin: Seq<u8>,
    input: Seq<u8>,
)
    requires
        has_root(origin),
        input.len() > 0,
        resolve(seq![], components(absolutize_spec(input, origin)).skip(1)) is Some,
    ensures
        normalized(root, origin, input) is Ok,
{
    let abs = absolutize_spec(input, origin);
    assert(has_root(abs));
    assert(components(abs)[0] == Component::RootDir);
}

/// Normalizing is idempotent: for an absolute root directory without `..`
/// and an absolute origin, a non-empty normalized path, normalized again
/// from the root, comes out unchanged. (A path that names the root itself
/// comes out empty, and an empty path is refused.)
pub proof fn law_normalizing_again_changes_nothing(root: Seq<u8>, origin: Seq<u8>, input: Seq<u8>)
    requires
        absolute_without_parent_steps(root),
        has_root(origin),
        normalized(root, origin, input) is Ok,
        normalized(root, origin, input)->Ok_0.len() > 0,
    ensures
        normalized(root, root, normalized(root, origin, input)->Ok_0) == normalized(
            root,
            origin,
            input,
        ),
{
    let out = normalized(root, origin, input)->Ok_0;
    law_result_leads_back_to_input(root, origin, input);
    assert(absolutize_spec(out, root) == join_spec(root, out));
}

/// A path inside the root directory comes out as the rest of its names after
/// the root's, with no parent steps.
pub proof fn law_inside_root_needs_no_parent_steps(root: Seq<u8>, origin: Seq<u8>, input: Seq<u8>)
    requires
        absolute_without_parent_steps(root),
        input.len() > 0,
        lexical(components(absolutize_spec(input, origin))) matches Some(l) && l.anchor
            == Anchor::Root && clean_names(components(root)).len() <= l.names.len()
            && l.names.subrange(0, clean_names(components(root)).len() as int) == clean_names(
            components(root),
        ),
    ensures
        normalized(root, origin, input) == Ok::<Seq<u8>, NormalizeError>(
            join_names(
                lexical(components(absolutize_spec(input, origin)))->Some_0.names.skip(
                    clean_names(components(root)).len() as int,
                ),
            ),
        ),
{
    let l = lexical(components(absolutize_spec(input, origin)))->Some_0;
    let rc = components(root);
    let rn = clean_names(rc);
    let tc = lexical_components(l);
    lemma_clean_root(root);
    lemma_clean_split(rc);
    assert(tc.subrange(0, rc.len() as int) =~= rc.subrange(0, rc.len() as int)) by {
        assert forall|j: int| 0 <= j < rc.len() implies tc[j] == rc[j] by {
            if j > 0 {
                assert(l.names.subrange(0, rn.len() as int)[j - 1] == rn[j - 1]);
            }
        }
    }
    assert(climbs(rc, tc, 0));
    lemma_climb_from_clean_root(l, rc);
    let k = least_climb(rc, tc);
    if k > 0 {
        assert(!climbs(rc, tc, 0));
    }
    assert(parent_steps(0) =~= Seq::<u8>::empty());
    lemma_lexical_valid(absolutize_spec(input, origin));
    let tail = l.names.skip(rn.len() as int);
    assert forall|i: int| 0 <= i < tail.len() implies valid_name(#[trigger] tail[i]) by {
        assert(tail[i] == l.names[i + rn.len()]);
    }
    lemma_components_join_names(tail);
    assert(join_spec(Seq::<u8>::empty(), join_names(tail)) =~= join_names(tail));
}

} // verus!
