//! Reverse-mode autograd mechanics: the tape-recording switch with the
//! guard that turns recording off for a scope, and the order in which a
//! backward pass visits the tape.
use vstd::prelude::*;

verus! {

/// The recording switch of one thread. Recording starts on.
#[derive(Debug)]
pub struct RecordingState {
    recording: bool,
}

impl RecordingState {
    /// Whether ops currently record onto the tape.
    pub closed spec fn is_on(&self) -> bool {
        self.recording
    }

    /// A fresh switch, recording.
    pub fn new() -> (r: RecordingState)
        ensures
            r.is_on(),
    {
        RecordingState { recording: true }
    }
}

/// Whether ops on this thread currently record onto the tape.
pub fn is_recording(state: &RecordingState) -> (r: bool)
    ensures
        r == state.is_on(),
{
    state.recording
}

/// Disables tape recording until released, remembering what to restore.
#[derive(Debug)]
pub struct NoGradGuard {
    previous: bool,
}

impl NoGradGuard {
    /// What releasing the guard restores.
    pub closed spec fn previous(&self) -> bool {
        self.previous
    }

    /// Disable recording, remembering whether it was on.
    pub fn new(state: &mut RecordingState) -> (g: NoGradGuard)
        ensures
            !final(state).is_on(),
            g.previous() == old(state).is_on(),
    {
        let previous = state.recording;
        state.recording = false;
        NoGradGuard { previous }
    }

    /// Restore the recording state the guard found.
    pub fn release(self, state: &mut RecordingState)
        ensures
            final(state).is_on() == self.previous(),
    {
        state.recording = self.previous;
    }
}

/// Run `f` with tape recording disabled; the previous state is restored
/// afterwards. `f` is handed the switch, so it may call `no_grad` itself:
/// recording resumes only when the outermost call ends.
pub fn no_grad<R, F: FnOnce(&mut RecordingState) -> R>(state: &mut RecordingState, f: F) -> (r: R)
    requires
        forall|s: &mut RecordingState| !s.is_on() ==> #[trigger] f.requires((s,)),
    ensures
        final(state).is_on() == old(state).is_on(),
        exists|s: &mut RecordingState| !s.is_on() && #[trigger] f.ensures((s,), r),
{
    let guard = NoGradGuard::new(state);
    let r = f(state);
    guard.release(state);
    r
}

/// Guards nest: with a guard taken inside another, recording stays off
/// when the inner one is released, and releasing the outer one restores
/// the state found before both. Each state and guard is the one the
/// previous call left.
pub proof fn law_guards_nest(
    s0: RecordingState,
    s1: RecordingState,
    outer: NoGradGuard,
    s2: RecordingState,
    inner: NoGradGuard,
    s3: RecordingState,
    s4: RecordingState,
)
    requires
        !s1.is_on() && outer.previous() == s0.is_on(),
        !s2.is_on() && inner.previous() == s1.is_on(),
        s3.is_on() == inner.previous(),
        s4.is_on() == outer.previous(),
    ensures
        !s3.is_on(),
        s4.is_on() == s0.is_on(),
{
}


/// Where a tensor stands on the tape.
#[derive(Debug, Clone, Copy, PartialEq, Eq, Structural)]
pub enum TapeRole {
    /// Not on the tape: a constant, a detached view, or a result computed
    /// from inputs off the tape or while recording was off.
    Off,
    /// A leaf whose gradient accumulates during a backward pass.
    Leaf,
    /// The output of a recorded operation.
    Computed,
}

impl TapeRole {
    /// Whether a tensor in this role is on the tape.
    pub open spec fn on_tape(self) -> bool {
        !(self is Off)
    }

    /// The role after asking for gradients (`wanted`) or not: a tensor
    /// asked for gradients becomes a leaf, unless it was computed on the
    /// tape, which it stays; one asked not to leaves the tape.
    pub open spec fn with_requires_grad_spec(self, wanted: bool) -> TapeRole {
        if !wanted {
            TapeRole::Off
        } else if self is Computed {
            TapeRole::Computed
        } else {
            TapeRole::Leaf
        }
    }

    /// Whether a tensor in this role is on the tape.
    pub fn is_on_tape(self) -> (r: bool)
        ensures
            r == self.on_tape(),
    {
        match self {
            TapeRole::Off => false,
            _ => true,
        }
    }

    /// Whether gradients accumulate on a tensor in this role: leaves
    /// only, whatever the recording switch says.
    pub fn requires_grad(self) -> (r: bool)
        ensures
            r == (self is Leaf),
    {
        match self {
            TapeRole::Leaf => true,
            _ => false,
        }
    }

    /// The role of a view detached from the tape: off it, whatever the
    /// tensor it views was.
    pub fn detach(self) -> (r: TapeRole)
        ensures
            r is Off,
    {
        TapeRole::Off
    }

    /// The role after asking for gradients (`wanted`) or not.
    pub fn with_requires_grad(self, wanted: bool) -> (r: TapeRole)
        ensures
            r == self.with_requires_grad_spec(wanted),
            r.on_tape() == wanted,
            (r is Leaf) == (wanted && !(self is Computed)),
            wanted && self is Computed ==> r == self,
    {
        if !wanted {
            TapeRole::Off
        } else {
            match self {
                TapeRole::Computed => TapeRole::Computed,
                _ => TapeRole::Leaf,
            }
        }
    }
}

/// Asking for gradients puts a tensor on the tape and asking not to takes
/// it off, whatever its role: a tensor computed on the tape stays
/// computed when asked, any other becomes a leaf (so it requires
/// gradients exactly when asked and not computed), and asking twice the
/// same way changes nothing more.
pub proof fn law_requires_grad_is_what_was_asked(role: TapeRole, wanted: bool)
    ensures
        role.with_requires_grad_spec(wanted).on_tape() == wanted,
        (role.with_requires_grad_spec(wanted) is Leaf) == (wanted && !(role is Computed)),
        wanted && role is Computed ==> role.with_requires_grad_spec(wanted) == role,
        role.with_requires_grad_spec(wanted).with_requires_grad_spec(wanted)
            == role.with_requires_grad_spec(wanted),
{
}

/// Some input is on the tape.
pub open spec fn any_on_tape(inputs: Seq<TapeRole>) -> bool {
    exists|i: int| 0 <= i < inputs.len() && (#[trigger] inputs[i]).on_tape()
}

/// The role of an operation's output: computed on the tape when
/// recording is on and some input is on the tape, off it otherwise.
pub fn output_role(state: &RecordingState, inputs: &[TapeRole]) -> (r: TapeRole)
    ensures
        r == (if state.is_on() && any_on_tape(inputs@) {
            TapeRole::Computed
        } else {
            TapeRole::Off
        }),
{
    if !state.recording {
        return TapeRole::Off;
    }
    let mut i: usize = 0;
    while i < inputs.len()
        invariant
            state.is_on(),
            i <= inputs@.len(),
            forall|j: int| 0 <= j < i ==> !(#[trigger] inputs@[j]).on_tape(),
        decreases inputs.len() - i,
    {
        if inputs[i].is_on_tape() {
            proof {
                assert(inputs@[i as int].on_tape());
                assert(any_on_tape(inputs@));
            }
            return TapeRole::Computed;
        }
        i += 1;
    }
    TapeRole::Off
}

/// An operation's output never accumulates gradients, recording or not,
/// and joins the tape only while recording: inside `no_grad` nothing an
/// operation produces is on the tape.
pub proof fn law_outputs_are_never_leaves(state: RecordingState, inputs: Seq<TapeRole>, out: TapeRole)
    requires
        out == (if state.is_on() && any_on_tape(inputs) {
            TapeRole::Computed
        } else {
            TapeRole::Off
        }),
    ensures
        !(out is Leaf),
        !state.is_on() ==> !out.on_tape(),
        out.on_tape() <==> state.is_on() && any_on_tape(inputs),
{
}

/// The inputs of node `m` include node `x`: `m` consumed `x`.
pub open spec fn feeds(g: Seq<Seq<usize>>, m: usize, x: usize) -> bool {
    m < g.len() && g[m as int].contains(x)
}

/// Every node's inputs were recorded before it: a smaller index.
pub open spec fn tape_ok(g: Seq<Seq<usize>>) -> bool {
    forall|m: int, j: int| 0 <= m < g.len() && 0 <= j < g[m].len() ==> #[trigger] g[m][j] < m
}

/// Step `i` of `p` follows an input edge: node `p[i]` consumed `p[i + 1]`.
pub open spec fn path_step(g: Seq<Seq<usize>>, p: Seq<usize>, i: int) -> bool {
    feeds(g, p[i], p[i + 1])
}

/// `p` is a chain of one or more input edges.
pub open spec fn is_path(g: Seq<Seq<usize>>, p: Seq<usize>) -> bool {
    p.len() >= 2 && forall|i: int| 0 <= i < p.len() - 1 ==> #[trigger] path_step(g, p, i)
}

/// Node `a` depends on node `b` through one or more input edges.
pub open spec fn depends_on(g: Seq<Seq<usize>>, a: usize, b: usize) -> bool {
    exists|p: Seq<usize>| #[trigger] is_path(g, p) && p[0] == a && p.last() == b
}

/// No node depends on itself.
pub open spec fn acyclic(g: Seq<Seq<usize>>) -> bool {
    forall|a: usize| !#[trigger] depends_on(g, a, a)
}

/// An input edge is a dependency.
proof fn lemma_edge_depends(g: Seq<Seq<usize>>, a: usize, b: usize)
    requires
        feeds(g, a, b),
    ensures
        depends_on(g, a, b),
{
    let p = seq![a, b];
    assert(path_step(g, p, 0));
    assert(is_path(g, p));
}

/// A dependency followed by an input edge is a dependency.
proof fn lemma_depends_step(g: Seq<Seq<usize>>, a: usize, b: usize, c: usize)
    requires
        depends_on(g, a, b),
        feeds(g, b, c),
    ensures
        depends_on(g, a, c),
{
    let p = choose|p: Seq<usize>| #[trigger] is_path(g, p) && p[0] == a && p.last() == b;
    let p2 = p.push(c);
    assert forall|i: int| 0 <= i < p2.len() - 1 implies #[trigger] path_step(g, p2, i) by {
        if i < p.len() - 1 {
            assert(path_step(g, p, i));
        }
    }
    assert(is_path(g, p2));
}

/// Along a path of a tape recorded in order the indices fall.
proof fn lemma_path_falls(g: Seq<Seq<usize>>, p: Seq<usize>)
    requires
        tape_ok(g),
        is_path(g, p),
    ensures
        p.last() < p[0],
    decreases p.len(),
{
    let k = p.len() - 2;
    assert(path_step(g, p, k));
    let j = choose|j: int| 0 <= j < g[p[k] as int].len() && g[p[k] as int][j] == p[k + 1];
    assert(g[p[k] as int][j] < p[k]);
    if p.len() > 2 {
        let q = p.drop_last();
        assert forall|i: int| 0 <= i < q.len() - 1 implies #[trigger] path_step(g, q, i) by {
            assert(path_step(g, p, i));
        }
        lemma_path_falls(g, q);
    }
}

/// A tape whose nodes' inputs were all recorded before them has no
/// cycle.
pub proof fn lemma_tape_ok_acyclic(g: Seq<Seq<usize>>)
    requires
        tape_ok(g),
    ensures
        acyclic(g),
{
    assert forall|a: usize| !#[trigger] depends_on(g, a, a) by {
        if depends_on(g, a, a) {
            let p = choose|p: Seq<usize>| #[trigger] is_path(g, p) && p[0] == a && p.last() == a;
            lemma_path_falls(g, p);
        }
    }
}

/// The input lists of a tape.
pub open spec fn input_views(v: Seq<Vec<usize>>) -> Seq<Seq<usize>> {
    Seq::new(v.len(), |k: int| v[k]@)
}

/// How many entries are set.
pub open spec fn count_set(v: Seq<bool>) -> nat
    decreases v.len(),
{
    if v.len() == 0 {
        0
    } else {
        count_set(v.drop_last()) + if v.last() {
            1nat
        } else {
            0nat
        }
    }
}

/// Setting an unset entry counts one more; never more than the length.
proof fn lemma_count_set(v: Seq<bool>, i: int)
    requires
        0 <= i < v.len(),
        !v[i],
    ensures
        count_set(v.update(i, true)) == count_set(v) + 1,
        count_set(v) < v.len(),
    decreases v.len(),
{
    let w = v.update(i, true);
    if i == v.len() - 1 {
        assert(w.drop_last() =~= v.drop_last());
        lemma_count_le(v.drop_last());
    } else {
        assert(w.drop_last() =~= v.drop_last().update(i, true));
        lemma_count_set(v.drop_last(), i);
    }
}

/// At most every entry is set.
proof fn lemma_count_le(v: Seq<bool>)
    ensures
        count_set(v) <= v.len(),
    decreases v.len(),
{
    if v.len() > 0 {
        lemma_count_le(v.drop_last());
    }
}

/// An entry of the backward-pass stack for node `m`, being expanded.
pub open spec fn in_progress(s: Seq<(usize, bool)>, m: usize) -> bool {
    exists|p: int| 0 <= p < s.len() && s[p] == (m, true)
}

/// The traversal's bookkeeping is well formed: every listed or
/// in-progress node is a node of the tape, each listed once.
spec fn wi_shape(g: Seq<Seq<usize>>, root: usize, s: Seq<(usize, bool)>, ord: Seq<usize>, vis: Seq<bool>) -> bool {
    let n = g.len();
    &&& root < n
    &&& vis.len() == n
    &&& ord.no_duplicates()
    &&& forall|i: int| 0 <= i < ord.len() ==> #[trigger] ord[i] < n
    &&& forall|p: int| 0 <= p < s.len() && (#[trigger] s[p]).1 ==> s[p].0 < n
}

/// A node is marked visited exactly when it is listed or in progress;
/// an in-progress node is not listed, and is on the stack once.
spec fn wi_marks(g: Seq<Seq<usize>>, s: Seq<(usize, bool)>, ord: Seq<usize>, vis: Seq<bool>) -> bool {
    let n = g.len();
    &&& forall|x: usize| x < n ==> (#[trigger] vis[x as int] <==> (ord.contains(x) || in_progress(s, x)))
    &&& forall|p: int| 0 <= p < s.len() && (#[trigger] s[p]).1 ==> !ord.contains(s[p].0)
    &&& forall|p: int, q: int|
        0 <= p < q < s.len() && (#[trigger] s[p]).1 && (#[trigger] s[q]).1 ==> s[p].0 != s[q].0
}

/// Every tracked input of a listed or in-progress node is visited or
/// waiting on the stack.
spec fn wi_closed(g: Seq<Seq<usize>>, s: Seq<(usize, bool)>, ord: Seq<usize>, vis: Seq<bool>) -> bool {
    let n = g.len();
    forall|x: usize, i: usize|
        x < n && i < n && (ord.contains(x) || in_progress(s, x)) && #[trigger] feeds(g, x, i) ==> vis[i as int]
            || s.contains((i, false))
}

/// Every stack entry above the bottom was pushed as an input of an
/// in-progress node below it.
spec fn wi_parents(g: Seq<Seq<usize>>, s: Seq<(usize, bool)>) -> bool {
    forall|q: int| 0 < q < s.len() ==> #[trigger] has_parent(g, s, q)
}

/// Stack entry `q` was pushed as an input of an in-progress entry below
/// it.
spec fn has_parent(g: Seq<Seq<usize>>, s: Seq<(usize, bool)>, q: int) -> bool {
    exists|p: int| 0 <= p < q && s[p].1 && #[trigger] feeds(g, s[p].0, s[q].0)
}

/// The root sits at the bottom of the stack until it is listed, last.
spec fn wi_root(g: Seq<Seq<usize>>, root: usize, s: Seq<(usize, bool)>, ord: Seq<usize>, vis: Seq<bool>) -> bool {
    &&& s.len() > 0 ==> s[0].0 == root && !ord.contains(root)
    &&& s.len() > 0 && !s[0].1 ==> s.len() == 1 && ord.len() == 0 && forall|x: int| 0 <= x < g.len() ==> !#[trigger] vis[x]
    &&& s.len() == 0 ==> ord.len() > 0 && ord.last() == root
}

/// Every listed node but the root feeds a node listed after it or one in
/// progress.
spec fn wi_consumed(g: Seq<Seq<usize>>, root: usize, s: Seq<(usize, bool)>, ord: Seq<usize>) -> bool {
    forall|i: int|
        0 <= i < ord.len() && #[trigger] ord[i] != root ==> (exists|j: int|
            i < j < ord.len() && #[trigger] feeds(g, ord[j], ord[i])) || (exists|p: int|
            0 <= p < s.len() && (#[trigger] s[p]).1 && feeds(g, s[p].0, ord[i]))
}

/// On a tape without cycles: an in-progress node depends on every node
/// above it; an in-progress node's inputs are listed or above it; a
/// listed node's inputs are listed before it.
spec fn wi_acyclic(g: Seq<Seq<usize>>, s: Seq<(usize, bool)>, ord: Seq<usize>) -> bool {
    &&& forall|p: int, q: int|
        0 <= p < q < s.len() && (#[trigger] s[p]).1 ==> depends_on(g, s[p].0, (#[trigger] s[q]).0)
    &&& forall|p: int, i: usize|
        0 <= p < s.len() && i < g.len() && (#[trigger] s[p]).1 && #[trigger] feeds(g, s[p].0, i) ==> ord.contains(i)
            || exists|q: int| p < q < s.len() && (#[trigger] s[q]).0 == i
    &&& forall|k: int, i: usize|
        0 <= k < ord.len() && i < g.len() && #[trigger] feeds(g, ord[k], i) ==> exists|q: int| 0 <= q < k && #[trigger] ord[q] == i
}

/// The invariant of the backward-pass traversal.
spec fn walk_inv(
    g: Seq<Seq<usize>>,
    root: usize,
    s: Seq<(usize, bool)>,
    ord: Seq<usize>,
    vis: Seq<bool>,
) -> bool {
    &&& wi_shape(g, root, s, ord, vis)
    &&& wi_marks(g, s, ord, vis)
    &&& wi_closed(g, s, ord, vis)
    &&& wi_parents(g, s)
    &&& wi_root(g, root, s, ord, vis)
    &&& wi_consumed(g, root, s, ord)
    &&& acyclic(g) ==> wi_acyclic(g, s, ord)
}

/// `ord` is an order a backward pass may visit tape `g` from `root` in:
/// the nodes `root` depends on, each once, `root` last; every node listed
/// has its tracked inputs listed; every node but the root is an input of
/// a node listed after it; and on a tape without cycles every node comes
/// after all of its inputs.
pub open spec fn visit_order(g: Seq<Seq<usize>>, root: usize, ord: Seq<usize>) -> bool {
    &&& ord.no_duplicates()
    &&& forall|i: int| 0 <= i < ord.len() ==> #[trigger] ord[i] < g.len()
    &&& root >= g.len() ==> ord.len() == 0
    &&& root < g.len() ==> ord.len() > 0 && ord.last() == root
    &&& forall|k: int, i: usize|
        0 <= k < ord.len() && i < g.len() && #[trigger] feeds(g, ord[k], i) ==> ord.contains(i)
    &&& forall|k: int|
        0 <= k < ord.len() && #[trigger] ord[k] != root ==> exists|j: int|
            k < j < ord.len() && #[trigger] feeds(g, ord[j], ord[k])
    &&& acyclic(g) ==> forall|k: int, q: int|
        0 <= k < ord.len() && 0 <= q < ord.len() && #[trigger] feeds(g, ord[k], ord[q]) ==> q < k
}

/// The order a backward pass visits the tape from `root`: the nodes
/// `root` depends on, each once, in depth-first post-order, `root` last.
/// Node `m` consumed the nodes `inputs[m]`; an index past the tape is an
/// untracked tensor, never visited.
///
/// Every node listed has all its tracked inputs listed; every node but
/// the root is an input of a node listed after it; and on a tape without
/// cycles (whatever its numbering), every node comes after all of its
/// inputs, so walking the list backwards reaches each node only after
/// everything it feeds.
pub fn backward_order(inputs: &Vec<Vec<usize>>, root: usize) -> (order: Vec<usize>)
    ensures
        visit_order(input_views(inputs@), root, order@),
{
    let n = inputs.len();
    let ghost g = input_views(inputs@);
    let mut order: Vec<usize> = Vec::new();
    if root >= n {
        return order;
    }
    let mut visited: Vec<bool> = Vec::new();
    let mut z: usize = 0;
    while z < n
        invariant
            z <= n,
            visited@.len() == z,
            forall|x: int| 0 <= x < z ==> !#[trigger] visited@[x],
        decreases n - z,
    {
        visited.push(false);
        z += 1;
    }
    let mut stack: Vec<(usize, bool)> = Vec::new();
    stack.push((root, false));
    let ghost mut nv: nat = 0;
    proof {
        assert(count_set(visited@) == 0) by {
            lemma_count_zero(visited@);
        }
    }
    while stack.len() > 0
        invariant
            n == g.len(),
            g == input_views(inputs@),
            walk_inv(g, root, stack@, order@, visited@),
            nv == count_set(visited@),
            nv <= n,
        decreases n - nv, stack@.len(),
    {
        let ghost s = stack@;
        let ghost ord = order@;
        let ghost vis = visited@;
        let (t, expanded) = stack.pop().unwrap();
        let ghost sp = stack@;
        let ghost q = s.len() - 1;
        proof {
            assert(s[q] == (t, expanded));
            assert(sp =~= s.take(q));
        }
        if expanded {
            order.push(t);
            proof {
                lemma_walk_finish(g, root, s, ord, vis, t);
            }
        } else if t >= n {
            proof {
                lemma_walk_skip(g, root, s, ord, vis, t);
            }
        } else if visited[t] {
            proof {
                lemma_walk_skip(g, root, s, ord, vis, t);
            }
        } else {
            visited.set(t, true);
            stack.push((t, true));
            let ins = &inputs[t];
            let ghost base = stack@;
            assert(ins@ == g[t as int]);
            let mut j: usize = 0;
            while j < ins.len()
                invariant
                    j <= ins@.len(),
                    stack@ == base + Seq::new(j as nat, |x: int| (ins@[x], false)),
                decreases ins.len() - j,
            {
                stack.push((ins[j], false));
                j += 1;
                assert(stack@ =~= base + Seq::new(j as nat, |x: int| (ins@[x], false)));
            }
            proof {
                lemma_count_set(vis, t as int);
                lemma_walk_expand(g, root, s, ord, vis, t, stack@);
            }
            proof {
                nv = nv + 1;
            }
        }
    }
    proof {
        assert(stack@ =~= Seq::<(usize, bool)>::empty());
        lemma_walk_done(g, root, order@, visited@);
    }
    order
}

/// No entry is set in a fresh list.
proof fn lemma_count_zero(v: Seq<bool>)
    requires
        forall|x: int| 0 <= x < v.len() ==> !#[trigger] v[x],
    ensures
        count_set(v) == 0,
    decreases v.len(),
{
    if v.len() > 0 {
        lemma_count_zero(v.drop_last());
    }
}


/// Popping a finished node appends it to the order.
#[verifier::rlimit(50)]
proof fn lemma_walk_finish(
    g: Seq<Seq<usize>>,
    root: usize,
    s: Seq<(usize, bool)>,
    ord: Seq<usize>,
    vis: Seq<bool>,
    t: usize,
)
    requires
        walk_inv(g, root, s, ord, vis),
        s.len() > 0,
        s.last() == (t, true),
    ensures
        walk_inv(g, root, s.drop_last(), ord.push(t), vis),
{
    let n = g.len();
    let q = s.len() - 1;
    let s2 = s.drop_last();
    let o2 = ord.push(t);
    assert(s[q] == (t, true));
    assert(t < n);
    assert(!ord.contains(t));
    assert forall|p: int| 0 <= p < s2.len() implies #[trigger] s2[p] == s[p] by {}
    // the finished node is no longer in progress
    assert forall|m: usize| #[trigger] in_progress(s2, m) <==> (in_progress(s, m) && m != t) by {
        if in_progress(s2, m) {
            let p = choose|p: int| 0 <= p < s2.len() && s2[p] == (m, true);
            assert(s[p] == (m, true));
            if m == t {
                assert(s[p].0 != s[q].0);
            }
        }
        if in_progress(s, m) && m != t {
            let p = choose|p: int| 0 <= p < s.len() && s[p] == (m, true);
            assert(p != q);
            assert(s2[p] == (m, true));
        }
    }
    assert forall|x: usize| #[trigger] o2.contains(x) <==> (ord.contains(x) || x == t) by {
        if o2.contains(x) {
            let i = choose|i: int| 0 <= i < o2.len() && o2[i] == x;
            if i < ord.len() {
                assert(ord[i] == x);
            }
        }
        if ord.contains(x) {
            let i = choose|i: int| 0 <= i < ord.len() && ord[i] == x;
            assert(o2[i] == x);
        }
        if x == t {
            assert(o2[ord.len() as int] == t);
        }
    }
    assert(o2.no_duplicates()) by {
        assert forall|i: int, j: int| 0 <= i < o2.len() && 0 <= j < o2.len() && i != j implies o2[i]
            != o2[j] by {
            if i < ord.len() && j < ord.len() {
                assert(o2[i] == ord[i] && o2[j] == ord[j]);
            } else if i < ord.len() {
                assert(ord.contains(ord[i]));
            } else if j < ord.len() {
                assert(ord.contains(ord[j]));
            }
        }
    }
    assert forall|x: usize, i: usize|
        x < n && i < n && (o2.contains(x) || in_progress(s2, x)) && #[trigger] feeds(g, x, i) implies vis[i as int]
        || s2.contains((i, false)) by {
        assert(ord.contains(x) || in_progress(s, x));
        if s.contains((i, false)) {
            let p = choose|p: int| 0 <= p < s.len() && s[p] == (i, false);
            assert(p != q);
            assert(s2[p] == (i, false));
        }
    }
    assert forall|qq: int| 0 < qq < s2.len() implies #[trigger] has_parent(g, s2, qq) by {
        assert(s2[qq] == s[qq]);
        assert(has_parent(g, s, qq));
        let p = choose|p: int| 0 <= p < qq && s[p].1 && #[trigger] feeds(g, s[p].0, s[qq].0);
        assert(s2[p] == s[p]);
        assert(feeds(g, s2[p].0, s2[qq].0));
    }
    // each listed node but the root has a consumer after it, or one in progress
    assert forall|i: int|
        0 <= i < o2.len() && #[trigger] o2[i] != root implies (exists|j: int|
        i < j < o2.len() && #[trigger] feeds(g, o2[j], o2[i])) || (exists|p: int|
        0 <= p < s2.len() && (#[trigger] s2[p]).1 && feeds(g, s2[p].0, o2[i])) by {
        if i == ord.len() {
            assert(o2[i] == t);
            if q == 0 {
                assert(s[0].0 == root);
            }
            assert(q > 0);
            assert(has_parent(g, s, q));
            let p = choose|p: int| 0 <= p < q && s[p].1 && #[trigger] feeds(g, s[p].0, s[q].0);
            assert(s2[p] == s[p]);
        } else {
            assert(o2[i] == ord[i]);
            if exists|j: int| i < j < ord.len() && #[trigger] feeds(g, ord[j], ord[i]) {
                let j = choose|j: int| i < j < ord.len() && #[trigger] feeds(g, ord[j], ord[i]);
                assert(o2[j] == ord[j]);
            } else {
                let p = choose|p: int| 0 <= p < s.len() && (#[trigger] s[p]).1 && feeds(g, s[p].0, ord[i]);
                if p == q {
                    assert(o2[ord.len() as int] == t);
                    assert(feeds(g, o2[ord.len() as int], o2[i]));
                } else {
                    assert(s2[p] == s[p]);
                }
            }
        }
    }
    if s2.len() == 0 {
        assert(q == 0);
        assert(t == root);
    }
    if acyclic(g) {
        assert forall|p: int, i: usize|
            0 <= p < s2.len() && i < g.len() && (#[trigger] s2[p]).1 && #[trigger] feeds(g, s2[p].0, i) implies o2.contains(i)
            || exists|qq: int| p < qq < s2.len() && (#[trigger] s2[qq]).0 == i by {
            assert(s2[p] == s[p]);
            if !ord.contains(i) {
                let qq = choose|qq: int| p < qq < s.len() && (#[trigger] s[qq]).0 == i;
                if qq == q {
                    assert(i == t);
                } else {
                    assert(s2[qq] == s[qq]);
                }
            }
        }
        assert forall|k: int, i: usize| 0 <= k < o2.len() && i < g.len() && #[trigger] feeds(g, o2[k], i) implies exists|qq: int|
            0 <= qq < k && #[trigger] o2[qq] == i by {
            if k < ord.len() {
                assert(o2[k] == ord[k]);
                let qq = choose|qq: int| 0 <= qq < k && #[trigger] ord[qq] == i;
                assert(o2[qq] == ord[qq]);
            } else {
                assert(o2[k] == t);
                assert(feeds(g, s[q].0, i));
                if !ord.contains(i) {
                    let qq = choose|qq: int| q < qq < s.len() && (#[trigger] s[qq]).0 == i;
                }
                let qq = choose|qq: int| 0 <= qq < ord.len() && ord[qq] == i;
                assert(o2[qq] == ord[qq]);
            }
        }
        assert forall|p: int, qq: int| 0 <= p < qq < s2.len() && (#[trigger] s2[p]).1 implies depends_on(
            g,
            s2[p].0,
            (#[trigger] s2[qq]).0,
        ) by {
            assert(s2[p] == s[p] && s2[qq] == s[qq]);
        }
    }
    assert(wi_shape(g, root, s2, o2, vis));
    assert(wi_marks(g, s2, o2, vis));
    assert(wi_closed(g, s2, o2, vis));
    assert(wi_parents(g, s2));
    assert(wi_root(g, root, s2, o2, vis));
    assert(wi_consumed(g, root, s2, o2));
    assert(acyclic(g) ==> wi_acyclic(g, s2, o2));
}


/// Popping an untracked or already visited node changes nothing else.
proof fn lemma_walk_skip(
    g: Seq<Seq<usize>>,
    root: usize,
    s: Seq<(usize, bool)>,
    ord: Seq<usize>,
    vis: Seq<bool>,
    t: usize,
)
    requires
        walk_inv(g, root, s, ord, vis),
        s.len() > 0,
        s.last() == (t, false),
        t >= g.len() || vis[t as int],
    ensures
        walk_inv(g, root, s.drop_last(), ord, vis),
{
    let n = g.len();
    let q = s.len() - 1;
    let s2 = s.drop_last();
    assert(s[q] == (t, false));
    assert forall|p: int| 0 <= p < s2.len() implies #[trigger] s2[p] == s[p] by {}
    if q == 0 {
        assert(s[0].0 == root);
        assert(!vis[root as int]);
    }
    assert forall|m: usize| #[trigger] in_progress(s2, m) <==> in_progress(s, m) by {
        if in_progress(s2, m) {
            let p = choose|p: int| 0 <= p < s2.len() && s2[p] == (m, true);
            assert(s[p] == (m, true));
        }
        if in_progress(s, m) {
            let p = choose|p: int| 0 <= p < s.len() && s[p] == (m, true);
            assert(p != q);
            assert(s2[p] == (m, true));
        }
    }
    assert forall|x: usize, i: usize|
        x < n && i < n && (ord.contains(x) || in_progress(s2, x)) && #[trigger] feeds(g, x, i) implies vis[i as int]
        || s2.contains((i, false)) by {
        if s.contains((i, false)) && !vis[i as int] {
            let p = choose|p: int| 0 <= p < s.len() && s[p] == (i, false);
            assert(p != q);
            assert(s2[p] == (i, false));
        }
    }
    assert forall|qq: int| 0 < qq < s2.len() implies #[trigger] has_parent(g, s2, qq) by {
        assert(s2[qq] == s[qq]);
        assert(has_parent(g, s, qq));
        let p = choose|p: int| 0 <= p < qq && s[p].1 && #[trigger] feeds(g, s[p].0, s[qq].0);
        assert(s2[p] == s[p]);
        assert(feeds(g, s2[p].0, s2[qq].0));
    }
    assert forall|i: int|
        0 <= i < ord.len() && #[trigger] ord[i] != root implies (exists|j: int|
        i < j < ord.len() && #[trigger] feeds(g, ord[j], ord[i])) || (exists|p: int|
        0 <= p < s2.len() && (#[trigger] s2[p]).1 && feeds(g, s2[p].0, ord[i])) by {
        if !(exists|j: int| i < j < ord.len() && #[trigger] feeds(g, ord[j], ord[i])) {
            let p = choose|p: int| 0 <= p < s.len() && (#[trigger] s[p]).1 && feeds(g, s[p].0, ord[i]);
            assert(p != q);
            assert(s2[p] == s[p]);
        }
    }
    if acyclic(g) {
        assert forall|p: int, i: usize|
            0 <= p < s2.len() && i < g.len() && (#[trigger] s2[p]).1 && #[trigger] feeds(g, s2[p].0, i) implies ord.contains(i)
            || exists|qq: int| p < qq < s2.len() && (#[trigger] s2[qq]).0 == i by {
            assert(s2[p] == s[p]);
            let m = s[p].0;
            if !ord.contains(i) {
                let qq = choose|qq: int| p < qq < s.len() && (#[trigger] s[qq]).0 == i;
                if qq == q {
                    assert(i == t);
                    assert(m < n);
                    assert(vis[t as int]);
                    let r = choose|r: int| 0 <= r < s.len() && s[r] == (t, true);
                    assert(depends_on(g, s[r].0, s[q].0));
                    assert(!depends_on(g, t, t));
                    assert(r != p);
                    assert(r != q);
                    assert(s2[r] == s[r]);
                } else {
                    assert(s2[qq] == s[qq]);
                }
            }
        }
        assert forall|p: int, qq: int| 0 <= p < qq < s2.len() && (#[trigger] s2[p]).1 implies depends_on(
            g,
            s2[p].0,
            (#[trigger] s2[qq]).0,
        ) by {
            assert(s2[p] == s[p] && s2[qq] == s[qq]);
        }
    }
    assert(wi_shape(g, root, s2, ord, vis));
    assert(wi_marks(g, s2, ord, vis));
    assert(wi_closed(g, s2, ord, vis));
    assert(wi_parents(g, s2));
    assert(wi_root(g, root, s2, ord, vis));
    assert(wi_consumed(g, root, s2, ord));
    assert(acyclic(g) ==> wi_acyclic(g, s2, ord));
}

/// Expanding an unvisited node marks it, keeps it on the stack as in
/// progress and pushes its inputs above it.
proof fn lemma_walk_expand(
    g: Seq<Seq<usize>>,
    root: usize,
    s: Seq<(usize, bool)>,
    ord: Seq<usize>,
    vis: Seq<bool>,
    t: usize,
    s3: Seq<(usize, bool)>,
)
    requires
        walk_inv(g, root, s, ord, vis),
        s.len() > 0,
        s.last() == (t, false),
        t < g.len(),
        !vis[t as int],
        s3 == s.drop_last().push((t, true)) + Seq::new(
            g[t as int].len(),
            |x: int| (g[t as int][x], false),
        ),
    ensures
        walk_inv(g, root, s3, ord, vis.update(t as int, true)),
{
    let n = g.len();
    let q = s.len() - 1;
    let e = g[t as int];
    let v2 = vis.update(t as int, true);
    assert(s[q] == (t, false));
    assert(s3.len() == q + 1 + e.len());
    assert forall|p: int| 0 <= p < q implies #[trigger] s3[p] == s[p] by {}
    assert(s3[q] == (t, true));
    assert forall|x: int| 0 <= x < e.len() implies #[trigger] s3[q + 1 + x] == (e[x], false) by {}
    assert(!ord.contains(t) && !in_progress(s, t));
    assert forall|m: usize| #[trigger] in_progress(s3, m) <==> (in_progress(s, m) || m == t) by {
        if in_progress(s3, m) {
            let p = choose|p: int| 0 <= p < s3.len() && s3[p] == (m, true);
            if p < q {
                assert(s[p] == (m, true));
            } else if p > q {
                assert(s3[q + 1 + (p - q - 1)] == (e[p - q - 1], false));
            }
        }
        if in_progress(s, m) {
            let p = choose|p: int| 0 <= p < s.len() && s[p] == (m, true);
            assert(p != q);
            assert(s3[p] == (m, true));
        }
        if m == t {
            assert(s3[q] == (t, true));
        }
    }
    assert forall|x: usize| x < n implies (#[trigger] v2[x as int] <==> (ord.contains(x) || in_progress(s3, x))) by {
        if x != t {
            assert(v2[x as int] == vis[x as int]);
        }
    }
    assert forall|p: int| 0 <= p < s3.len() && (#[trigger] s3[p]).1 implies s3[p].0 < n && !ord.contains(
        s3[p].0,
    ) by {
        if p < q {
            assert(s3[p] == s[p]);
        } else if p > q {
            assert(s3[q + 1 + (p - q - 1)] == (e[p - q - 1], false));
        }
    }
    assert forall|p: int, pp: int|
        0 <= p < pp < s3.len() && (#[trigger] s3[p]).1 && (#[trigger] s3[pp]).1 implies s3[p].0 != s3[pp].0 by {
        if pp > q {
            assert(s3[q + 1 + (pp - q - 1)] == (e[pp - q - 1], false));
        } else if pp == q {
            assert(s3[p] == s[p]);
            assert(in_progress(s, s[p].0));
        } else {
            assert(s3[p] == s[p] && s3[pp] == s[pp]);
        }
    }
    assert forall|x: usize, i: usize|
        x < n && i < n && (ord.contains(x) || in_progress(s3, x)) && #[trigger] feeds(g, x, i) implies v2[i as int]
        || s3.contains((i, false)) by {
        if x == t {
            let j = choose|j: int| 0 <= j < e.len() && e[j] == i;
            assert(s3[q + 1 + j] == (i, false));
        } else {
            assert(ord.contains(x) || in_progress(s, x));
            if !vis[i as int] {
                let p = choose|p: int| 0 <= p < s.len() && s[p] == (i, false);
                if p == q {
                    assert(i == t);
                } else {
                    assert(s3[p] == (i, false));
                }
            } else {
                assert(v2[i as int]);
            }
        }
    }
    assert forall|qq: int| 0 < qq < s3.len() implies #[trigger] has_parent(g, s3, qq) by {
        if qq < q {
            assert(s3[qq] == s[qq]);
            assert(has_parent(g, s, qq));
            let p = choose|p: int| 0 <= p < qq && s[p].1 && #[trigger] feeds(g, s[p].0, s[qq].0);
            assert(s3[p] == s[p]);
            assert(feeds(g, s3[p].0, s3[qq].0));
        } else if qq == q {
            assert(has_parent(g, s, q));
            let p = choose|p: int| 0 <= p < q && s[p].1 && #[trigger] feeds(g, s[p].0, s[q].0);
            assert(s3[p] == s[p]);
            assert(feeds(g, s3[p].0, s3[qq].0));
        } else {
            let x = qq - q - 1;
            assert(s3[q + 1 + x] == (e[x], false));
            assert(e.contains(e[x]));
            assert(feeds(g, s3[q].0, s3[qq].0));
            assert(s3[q].1);
        }
    }
    if q > 0 {
        assert(s3[0] == s[0]);
        if !s[0].1 {
            assert(s.len() == 1);
        }
    } else {
        assert(t == root);
    }
    assert forall|i: int|
        0 <= i < ord.len() && #[trigger] ord[i] != root implies (exists|j: int|
        i < j < ord.len() && #[trigger] feeds(g, ord[j], ord[i])) || (exists|p: int|
        0 <= p < s3.len() && (#[trigger] s3[p]).1 && feeds(g, s3[p].0, ord[i])) by {
        if !(exists|j: int| i < j < ord.len() && #[trigger] feeds(g, ord[j], ord[i])) {
            let p = choose|p: int| 0 <= p < s.len() && (#[trigger] s[p]).1 && feeds(g, s[p].0, ord[i]);
            assert(p != q);
            assert(s3[p] == s[p]);
        }
    }
    if acyclic(g) {
        assert forall|p: int, pp: int| 0 <= p < pp < s3.len() && (#[trigger] s3[p]).1 implies depends_on(
            g,
            s3[p].0,
            (#[trigger] s3[pp]).0,
        ) by {
            if p < q {
                assert(s3[p] == s[p]);
                if pp < q {
                    assert(s3[pp] == s[pp]);
                } else if pp == q {
                    assert(depends_on(g, s[p].0, s[q].0));
                } else {
                    assert(s3[q + 1 + (pp - q - 1)] == (e[pp - q - 1], false));
                    assert(depends_on(g, s[p].0, s[q].0));
                    assert(g[t as int][pp - q - 1] == e[pp - q - 1]);
                    assert(feeds(g, t, e[pp - q - 1]));
                    lemma_depends_step(g, s[p].0, t, e[pp - q - 1]);
                }
            } else if p == q {
                assert(s3[q + 1 + (pp - q - 1)] == (e[pp - q - 1], false));
                assert(g[t as int][pp - q - 1] == e[pp - q - 1]);
                assert(feeds(g, t, e[pp - q - 1]));
                lemma_edge_depends(g, t, e[pp - q - 1]);
            } else {
                assert(s3[q + 1 + (p - q - 1)] == (e[p - q - 1], false));
            }
        }
        assert forall|p: int, i: usize|
            0 <= p < s3.len() && i < g.len() && (#[trigger] s3[p]).1 && #[trigger] feeds(g, s3[p].0, i) implies ord.contains(i)
            || exists|qq: int| p < qq < s3.len() && (#[trigger] s3[qq]).0 == i by {
            if p < q {
                assert(s3[p] == s[p]);
                if !ord.contains(i) {
                    let qq = choose|qq: int| p < qq < s.len() && (#[trigger] s[qq]).0 == i;
                    if qq == q {
                        assert(s3[q].0 == i);
                    } else {
                        assert(s3[qq] == s[qq]);
                    }
                }
            } else if p == q {
                let j = choose|j: int| 0 <= j < e.len() && e[j] == i;
                assert(s3[q + 1 + j] == (i, false));
            } else {
                assert(s3[q + 1 + (p - q - 1)] == (e[p - q - 1], false));
            }
        }
    }
    assert(wi_shape(g, root, s3, ord, v2));
    assert(wi_marks(g, s3, ord, v2));
    assert(wi_closed(g, s3, ord, v2));
    assert(wi_parents(g, s3));
    assert(wi_root(g, root, s3, ord, v2));
    assert(wi_consumed(g, root, s3, ord));
    assert(acyclic(g) ==> wi_acyclic(g, s3, ord));
}

/// When the stack is empty, the order has every property the pass
/// promises.
proof fn lemma_walk_done(g: Seq<Seq<usize>>, root: usize, ord: Seq<usize>, vis: Seq<bool>)
    requires
        walk_inv(g, root, Seq::empty(), ord, vis),
    ensures
        ord.len() > 0 && ord.last() == root,
        forall|k: int, i: usize|
            0 <= k < ord.len() && i < g.len() && #[trigger] feeds(g, ord[k], i) ==> ord.contains(i),
        forall|k: int|
            0 <= k < ord.len() && #[trigger] ord[k] != root ==> exists|j: int|
                k < j < ord.len() && #[trigger] feeds(g, ord[j], ord[k]),
        acyclic(g) ==> forall|k: int, q: int|
            0 <= k < ord.len() && 0 <= q < ord.len() && #[trigger] feeds(g, ord[k], ord[q]) ==> q < k,
{
    let e = Seq::<(usize, bool)>::empty();
    assert forall|m: usize| !#[trigger] in_progress(e, m) by {}
    assert forall|k: int, i: usize|
        0 <= k < ord.len() && i < g.len() && #[trigger] feeds(g, ord[k], i) implies ord.contains(i) by {
        assert(ord.contains(ord[k]));
        assert(!e.contains((i, false)));
        assert(vis[i as int]);
    }
    assert forall|k: int|
        0 <= k < ord.len() && #[trigger] ord[k] != root implies exists|j: int|
        k < j < ord.len() && #[trigger] feeds(g, ord[j], ord[k]) by {}
    if acyclic(g) {
        assert forall|k: int, q: int|
            0 <= k < ord.len() && 0 <= q < ord.len() && #[trigger] feeds(g, ord[k], ord[q]) implies q < k by {
            let q2 = choose|q2: int| 0 <= q2 < k && #[trigger] ord[q2] == ord[q];
        }
    }
}


/// `accs` are the running sums of a left fold of `plus` over `list`: the
/// first item, then each sum `plus` of the previous one and the next item.
pub open spec fn sums_along<G, E, A: Fn(&G, &G) -> Result<G, E>>(
    plus: A,
    list: Seq<G>,
    accs: Seq<G>,
) -> bool {
    &&& accs.len() == list.len()
    &&& accs.len() > 0
    &&& accs[0] == list[0]
    &&& forall|i: int|
        0 <= i < accs.len() - 1 ==> #[trigger] plus.ensures((&accs[i], &list[i + 1]), Ok(accs[i + 1]))
}

/// `r` is the left fold of `plus` over `list`: nothing for an empty list.
pub open spec fn folds_to<G, E, A: Fn(&G, &G) -> Result<G, E>>(
    plus: A,
    list: Seq<G>,
    r: Option<G>,
) -> bool {
    if list.len() == 0 {
        r is None
    } else {
        exists|accs: Seq<G>| #[trigger] sums_along(plus, list, accs) && r == Some(accs.last())
    }
}

/// The gradients a node with inputs `ins` sends to node `x` when its VJP
/// gives `out` (one entry per input slot): those of its first `j` slots
/// that hold `x` and a gradient, in slot order.
pub open spec fn slot_grads<G>(ins: Seq<usize>, out: Seq<Option<G>>, x: usize, j: int) -> Seq<G>
    decreases j,
{
    if j <= 0 {
        Seq::empty()
    } else {
        let prev = slot_grads(ins, out, x, j - 1);
        if ins[j - 1] == x && j - 1 < out.len() && out[j - 1] is Some {
            prev.push(out[j - 1]->0)
        } else {
            prev
        }
    }
}

/// The gradients node `x` receives from the nodes at positions `p..` of
/// the visiting order `ord`, in the order the pass meets them (last
/// position first); `outs[q]` is what the VJP of the node at position
/// `q` gave.
pub open spec fn received<G>(
    g: Seq<Seq<usize>>,
    ord: Seq<usize>,
    outs: Seq<Seq<Option<G>>>,
    x: usize,
    p: int,
) -> Seq<G>
    decreases ord.len() - p,
{
    if p < 0 || p >= ord.len() {
        Seq::empty()
    } else {
        received(g, ord, outs, x, p + 1) + slot_grads(
            g[ord[p] as int],
            outs[p],
            x,
            g[ord[p] as int].len() as int,
        )
    }
}

/// Every gradient node `x` is handed: the seed first when it is the root,
/// then what it receives from positions `p..`.
pub open spec fn grad_list<G>(
    g: Seq<Seq<usize>>,
    ord: Seq<usize>,
    outs: Seq<Seq<Option<G>>>,
    root: usize,
    seed: G,
    x: usize,
    p: int,
) -> Seq<G> {
    (if x == root {
        seq![seed]
    } else {
        Seq::empty()
    }) + received(g, ord, outs, x, p)
}

/// A backward pass over tape `g` from `root` with gradient `seed`, visiting
/// in order `ord`, where the VJP of the node at position `q` gave
/// `outs[q]`, produced the totals `grads`: each visited node's total is
/// the left fold of `plus` over every gradient it was handed before it was
/// visited, its VJP was applied to that total (not at all when it has
/// none), and a node the pass never visits has no gradient.
pub open spec fn backprop_trace<G, E, A: Fn(&G, &G) -> Result<G, E>, V: Fn(usize, &G) -> Result<
    Vec<Option<G>>,
    E,
>>(
    g: Seq<Seq<usize>>,
    root: usize,
    seed: G,
    plus: A,
    vjp: V,
    ord: Seq<usize>,
    outs: Seq<Seq<Option<G>>>,
    grads: Seq<Option<G>>,
) -> bool {
    &&& visit_order(g, root, ord)
    &&& grads.len() == g.len()
    &&& outs.len() == ord.len()
    &&& forall|q: int|
        0 <= q < ord.len() ==> folds_to(
            plus,
            grad_list(g, ord, outs, root, seed, ord[q], q + 1),
            #[trigger] grads[ord[q] as int],
        )
    &&& forall|q: int|
        0 <= q < ord.len() ==> match #[trigger] grads[ord[q] as int] {
            Some(t) => exists|v: Vec<Option<G>>| #[trigger] vjp.ensures((ord[q], &t), Ok(v)) && v@ == outs[q],
            None => outs[q].len() == 0,
        }
    &&& forall|x: usize| x < g.len() && !ord.contains(x) ==> #[trigger] grads[x as int] is None
}

/// Appending an item to a folded list folds it into the total.
proof fn lemma_fold_push<G, E, A: Fn(&G, &G) -> Result<G, E>>(
    plus: A,
    list: Seq<G>,
    total: Option<G>,
    item: G,
    next: G,
)
    requires
        folds_to(plus, list, total),
        total matches Some(t) ==> plus.ensures((&t, &item), Ok(next)),
        total is None ==> next == item,
    ensures
        folds_to(plus, list.push(item), Some(next)),
{
    let l2 = list.push(item);
    if list.len() == 0 {
        let accs = seq![item];
        assert(sums_along(plus, l2, accs));
    } else {
        let accs = choose|accs: Seq<G>| #[trigger] sums_along(plus, list, accs) && total == Some(accs.last());
        let a2 = accs.push(next);
        assert forall|i: int| 0 <= i < a2.len() - 1 implies #[trigger] plus.ensures(
            (&a2[i], &l2[i + 1]),
            Ok(a2[i + 1]),
        ) by {
            if i < accs.len() - 1 {
                assert(plus.ensures((&accs[i], &list[i + 1]), Ok(accs[i + 1])));
            }
        }
        assert(sums_along(plus, l2, a2));
    }
}

/// A VJP that gave nothing sends nothing.
proof fn lemma_slot_grads_empty<G>(ins: Seq<usize>, out: Seq<Option<G>>, x: usize, j: int)
    requires
        out.len() == 0,
    ensures
        slot_grads(ins, out, x, j) == Seq::<G>::empty(),
    decreases j,
{
    if j > 0 {
        lemma_slot_grads_empty(ins, out, x, j - 1);
    }
}

/// What a node receives from positions `p..` depends only on the VJP
/// outputs at those positions.
proof fn lemma_received_frame<G>(
    g: Seq<Seq<usize>>,
    ord: Seq<usize>,
    o1: Seq<Seq<Option<G>>>,
    o2: Seq<Seq<Option<G>>>,
    x: usize,
    p: int,
)
    requires
        o1.len() == ord.len(),
        o2.len() == ord.len(),
        forall|q: int| p <= q < ord.len() ==> #[trigger] o1[q] == o2[q],
    ensures
        received(g, ord, o1, x, p) == received(g, ord, o2, x, p),
    decreases ord.len() - p,
{
    if 0 <= p < ord.len() {
        lemma_received_frame(g, ord, o1, o2, x, p + 1);
    }
}


/// Node `x` is listed at a position `p..` of `ord`: the pass has visited
/// it once those positions are done.
pub open spec fn listed_from(ord: Seq<usize>, p: int, x: usize) -> bool {
    exists|q: int| p <= q < ord.len() && #[trigger] ord[q] == x
}

/// One backward pass over the tape `inputs` (node `m` consumed the nodes
/// `inputs[m]`) from `root`, seeded with `seed`: the gradient bookkeeping
/// of reverse-mode differentiation, with the arithmetic handed in.
///
/// Nodes are visited in [`backward_order`] (walked from its end). A node
/// with a gradient has it passed to `vjp`, which gives one optional
/// gradient per input slot; each is routed to the node in that slot and
/// summed (`plus`, in arrival order) into what that node has so far, so a
/// tensor used twice receives both gradients. The result holds each
/// node's total (`None` for a node that received nothing or is not
/// visited). The first error either closure reports ends the pass and is
/// returned.
pub fn propagate_grads<G, E, A: Fn(&G, &G) -> Result<G, E>, V: Fn(usize, &G) -> Result<
    Vec<Option<G>>,
    E,
>>(inputs: &Vec<Vec<usize>>, root: usize, seed: G, plus: &A, vjp: &V) -> (r: Result<
    Vec<Option<G>>,
    E,
>)
    requires
        forall|a: &G, b: &G| #[trigger] plus.requires((a, b)),
        forall|k: usize, t: &G| #[trigger] vjp.requires((k, t)),
    ensures
        r matches Ok(grads) ==> exists|ord: Seq<usize>, outs: Seq<Seq<Option<G>>>|
            #[trigger] backprop_trace(
                input_views(inputs@),
                root,
                seed,
                *plus,
                *vjp,
                ord,
                outs,
                grads@,
            ),
        (forall|a: &G, b: &G, v: Result<G, E>| #[trigger] plus.ensures((a, b), v) ==> v is Ok) && (
        forall|k: usize, t: &G, v: Result<Vec<Option<G>>, E>| #[trigger] vjp.ensures((k, t), v)
            ==> v is Ok) ==> r is Ok,
{
    let ghost seed0 = seed;
    let ghost g = input_views(inputs@);
    let order = backward_order(inputs, root);
    let ghost ord = order@;
    let n = inputs.len();
    let mut pending: Vec<Option<G>> = Vec::new();
    let mut done: Vec<Option<G>> = Vec::new();
    let mut z: usize = 0;
    while z < n
        invariant
            z <= n,
            pending@.len() == z,
            done@.len() == z,
            forall|x: int| 0 <= x < z ==> #[trigger] pending@[x] is None,
            forall|x: int| 0 <= x < z ==> #[trigger] done@[x] is None,
        decreases n - z,
    {
        pending.push(None);
        done.push(None);
        z += 1;
    }
    if root < n {
        let mut s = Some(seed);
        pending.set_and_swap(root, &mut s);
    }
    let ghost mut outv: Seq<Seq<Option<G>>> = Seq::new(ord.len(), |q: int| Seq::<Option<G>>::empty());
    proof {
        assert forall|x: usize| x < n implies folds_to(
            *plus,
            grad_list(g, ord, outv, root, seed0, x, ord.len() as int),
            #[trigger] pending@[x as int],
        ) by {
            let l = grad_list(g, ord, outv, root, seed0, x, ord.len() as int);
            if x == root {
                assert(l =~= seq![seed0]);
                assert(sums_along(*plus, l, seq![seed0]));
            } else {
                assert(l =~= Seq::<G>::empty());
            }
        }
    }
    let mut p: usize = order.len();
    while p > 0
        invariant
            g == input_views(inputs@),
            n == g.len(),
            ord == order@,
            visit_order(g, root, ord),
            pending@.len() == n,
            done@.len() == n,
            outv.len() == ord.len(),
            p <= ord.len(),
            forall|a: &G, b: &G| #[trigger] plus.requires((a, b)),
            forall|k: usize, t: &G| #[trigger] vjp.requires((k, t)),
            forall|q: int| 0 <= q < p ==> (#[trigger] outv[q]).len() == 0,
            forall|q: int|
                p <= q < ord.len() ==> folds_to(
                    *plus,
                    grad_list(g, ord, outv, root, seed0, ord[q], q + 1),
                    #[trigger] done@[ord[q] as int],
                ),
            forall|q: int|
                p <= q < ord.len() ==> match #[trigger] done@[ord[q] as int] {
                    Some(t) => exists|v: Vec<Option<G>>| #[trigger] vjp.ensures((ord[q], &t), Ok(v)) && v@ == outv[q],
                    None => outv[q].len() == 0,
                },
            forall|x: usize|
                x < n && !listed_from(ord, p as int, x) ==> folds_to(
                    *plus,
                    grad_list(g, ord, outv, root, seed0, x, p as int),
                    #[trigger] pending@[x as int],
                ),
            forall|x: usize| x < n && !listed_from(ord, p as int, x) ==> #[trigger] done@[x as int] is None,
        decreases p,
    {
        p -= 1;
        let k = order[p];
        proof {
            assert(!listed_from(ord, p + 1, k)) by {
                if listed_from(ord, p + 1, k) {
                    let q = choose|q: int| p + 1 <= q < ord.len() && #[trigger] ord[q] == k;
                    assert(ord[q] == ord[p as int]);
                }
            }
            assert forall|x: usize| #[trigger] listed_from(ord, p as int, x) <==> (listed_from(ord, p + 1, x) || x == k) by {
                if listed_from(ord, p as int, x) {
                    let q = choose|q: int| p <= q < ord.len() && #[trigger] ord[q] == x;
                    if q > p {
                        assert(listed_from(ord, p + 1, x));
                    }
                }
                if x == k {
                    assert(ord[p as int] == x);
                }
                if listed_from(ord, p + 1, x) {
                    let q = choose|q: int| p + 1 <= q < ord.len() && #[trigger] ord[q] == x;
                    assert(ord[q] == x);
                }
            }
            assert(ord[p as int] < n);
        }
        let mut cur: Option<G> = None;
        pending.set_and_swap(k, &mut cur);
        match cur {
            None => {
                proof {
                    assert forall|x: usize| x < n implies grad_list(g, ord, outv, root, seed0, x, p as int)
                        =~= grad_list(g, ord, outv, root, seed0, x, p + 1) by {
                        lemma_slot_grads_empty(
                            g[ord[p as int] as int],
                            outv[p as int],
                            x,
                            g[ord[p as int] as int].len() as int,
                        );
                    }
                }
            },
            Some(gk) => {
                let outs_k = match vjp(k, &gk) {
                    Ok(v) => v,
                    Err(e) => {
                        return Err(e);
                    },
                };
                let ghost old_outv = outv;
                proof {
                    outv = outv.update(p as int, outs_k@);
                    assert forall|x: usize, q: int| p + 1 <= q <= ord.len() implies #[trigger] received(
                        g,
                        ord,
                        outv,
                        x,
                        q,
                    ) == received(g, ord, old_outv, x, q) by {
                        lemma_received_frame(g, ord, outv, old_outv, x, q);
                    }
                }
                let ins = &inputs[k];
                let ghost row = outs_k@;
                let mut outs_m = outs_k;
                let mut j: usize = 0;
                while j < ins.len()
                    invariant
                        j <= ins@.len(),
                        ins@ == g[k as int],
                        k == ord[p as int],
                        n == g.len(),
                        pending@.len() == n,
                        outs_m@.len() == row.len(),
                        forall|i: int| j <= i < row.len() ==> #[trigger] outs_m@[i] == row[i],
                        forall|a: &G, b: &G| #[trigger] plus.requires((a, b)),
                        forall|x: usize|
                            x < n && !listed_from(ord, p as int, x) ==> folds_to(
                                *plus,
                                grad_list(g, ord, outv, root, seed0, x, p + 1) + slot_grads(
                                    ins@,
                                    row,
                                    x,
                                    j as int,
                                ),
                                #[trigger] pending@[x as int],
                            ),
                    decreases ins.len() - j,
                {
                    let ik = ins[j];
                    let ghost before = pending@;
                    if ik < n && j < outs_m.len() {
                        let mut item: Option<G> = None;
                        outs_m.set_and_swap(j, &mut item);
                        match item {
                            Some(ig) => {
                                let mut ex: Option<G> = None;
                                pending.set_and_swap(ik, &mut ex);
                                let ghost l = grad_list(g, ord, outv, root, seed0, ik, p + 1) + slot_grads(
                                    ins@,
                                    row,
                                    ik,
                                    j as int,
                                );
                                let ghost ex0 = ex;
                                let next = match ex {
                                    Some(e0) => match plus(&e0, &ig) {
                                        Ok(v) => v,
                                        Err(e) => {
                                            return Err(e);
                                        },
                                    },
                                    None => ig,
                                };
                                proof {
                                    if !listed_from(ord, p as int, ik) {
                                        lemma_fold_push(*plus, l, ex0, ig, next);
                                        assert(l.push(ig) =~= grad_list(g, ord, outv, root, seed0, ik, p + 1)
                                            + slot_grads(ins@, row, ik, j + 1));
                                    }
                                }
                                pending.set(ik, Some(next));
                                proof {
                                    assert forall|x: usize|
                                        x < n && !listed_from(ord, p as int, x) implies folds_to(
                                        *plus,
                                        grad_list(g, ord, outv, root, seed0, x, p + 1) + slot_grads(
                                            ins@,
                                            row,
                                            x,
                                            j + 1,
                                        ),
                                        #[trigger] pending@[x as int],
                                    ) by {
                                        if x != ik {
                                            assert(slot_grads(ins@, row, x, j + 1) == slot_grads(
                                                ins@,
                                                row,
                                                x,
                                                j as int,
                                            ));
                                            assert(pending@[x as int] == before[x as int]);
                                        }
                                    }
                                }
                            },
                            None => {
                                proof {
                                    assert forall|x: usize|
                                        x < n && !listed_from(ord, p as int, x) implies folds_to(
                                        *plus,
                                        grad_list(g, ord, outv, root, seed0, x, p + 1) + slot_grads(
                                            ins@,
                                            row,
                                            x,
                                            j + 1,
                                        ),
                                        #[trigger] pending@[x as int],
                                    ) by {
                                        assert(slot_grads(ins@, row, x, j + 1) == slot_grads(
                                            ins@,
                                            row,
                                            x,
                                            j as int,
                                        ));
                                    }
                                }
                            },
                        }
                    } else {
                        proof {
                            assert forall|x: usize|
                                x < n && !listed_from(ord, p as int, x) implies folds_to(
                                *plus,
                                grad_list(g, ord, outv, root, seed0, x, p + 1) + slot_grads(
                                    ins@,
                                    row,
                                    x,
                                    j + 1,
                                ),
                                #[trigger] pending@[x as int],
                            ) by {
                                assert(slot_grads(ins@, row, x, j + 1) == slot_grads(
                                    ins@,
                                    row,
                                    x,
                                    j as int,
                                ));
                            }
                        }
                    }
                    j += 1;
                }
                proof {
                    assert forall|x: usize| x < n implies grad_list(g, ord, outv, root, seed0, x, p as int)
                        =~= grad_list(g, ord, outv, root, seed0, x, p + 1) + slot_grads(
                        ins@,
                        row,
                        x,
                        ins@.len() as int,
                    ) by {
                        assert(outv[p as int] == row);
                    }
                }
                done.set(k, Some(gk));
            },
        }
    }
    proof {
        assert forall|x: usize| x < n && !ord.contains(x) implies #[trigger] done@[x as int] is None by {
            if listed_from(ord, 0, x) {
                let q = choose|q: int| 0 <= q < ord.len() && #[trigger] ord[q] == x;
                assert(ord.contains(x));
            }
        }
        assert(backprop_trace(g, root, seed0, *plus, *vjp, ord, outv, done@));
    }
    let ghost fd = done@;
    let res: Result<Vec<Option<G>>, E> = Ok(done);
    proof {
        if let Ok(gg) = &res {
            assert(gg@ == fd);
            assert(backprop_trace(input_views(inputs@), root, seed, *plus, *vjp, ord, outv, gg@));
        }
    }
    res
}


/// A node whose input slots never hold `x` sends `x` nothing.
proof fn lemma_slot_grads_elsewhere<G>(ins: Seq<usize>, out: Seq<Option<G>>, x: usize, j: int)
    requires
        j <= ins.len(),
        forall|i: int| 0 <= i < j ==> #[trigger] ins[i] != x,
    ensures
        slot_grads(ins, out, x, j) == Seq::<G>::empty(),
    decreases j,
{
    if j > 0 {
        lemma_slot_grads_elsewhere(ins, out, x, j - 1);
    }
}

/// The node at position `q` receives nothing from positions `p..=q`.
proof fn lemma_nothing_after_visit<G>(
    g: Seq<Seq<usize>>,
    root: usize,
    ord: Seq<usize>,
    outs: Seq<Seq<Option<G>>>,
    q: int,
    p: int,
)
    requires
        acyclic(g),
        visit_order(g, root, ord),
        outs.len() == ord.len(),
        0 <= q < ord.len(),
        0 <= p <= q + 1,
    ensures
        received(g, ord, outs, ord[q], p) == received(g, ord, outs, ord[q], q + 1),
    decreases q + 1 - p,
{
    if p <= q {
        lemma_nothing_after_visit(g, root, ord, outs, q, p + 1);
        let x = ord[q];
        let m = ord[p];
        let ins = g[m as int];
        assert forall|i: int| 0 <= i < ins.len() implies #[trigger] ins[i] != x by {
            if ins[i] == x {
                assert(feeds(g, m, x));
                if p == q {
                    lemma_edge_depends(g, x, x);
                } else {
                    assert(feeds(g, ord[p], ord[q]));
                }
            }
        }
        lemma_slot_grads_elsewhere(ins, outs[p], x, ins.len() as int);
        assert(received(g, ord, outs, x, p) =~= received(g, ord, outs, x, p + 1));
    }
}

/// On a tape without cycles the pass hands each node every gradient it
/// will ever send it before visiting it: what node `ord[q]` receives over
/// the whole pass is what it has received when it is visited, so the
/// total its VJP is applied to is complete.
pub proof fn law_gradients_complete<G>(
    g: Seq<Seq<usize>>,
    root: usize,
    ord: Seq<usize>,
    outs: Seq<Seq<Option<G>>>,
    q: int,
)
    requires
        acyclic(g),
        visit_order(g, root, ord),
        outs.len() == ord.len(),
        0 <= q < ord.len(),
    ensures
        received(g, ord, outs, ord[q], 0) == received(g, ord, outs, ord[q], q + 1),
{
    lemma_nothing_after_visit(g, root, ord, outs, q, 0);
}

} // verus!
