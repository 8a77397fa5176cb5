//! The breadcrumb matcher: a state machine, owned by one compiled pattern,
//! that consumes paired enter/leave tree-traversal events and reports at
//! which nodes the open ancestor path satisfies the pattern.
//!
//! A pattern is an ordered sequence of terms.  A `Matches` (required) term
//! must be satisfied, in order, by a chain of ever-deeper open nodes.  A
//! `NotMatches` (excluded) term never blocks that chain, but while a node
//! bearing its label is open and the chain has progressed exactly to the
//! run of excluded terms containing it, the term is "triggered" and no
//! match is reported.  Triggers are released exactly when the node that
//! caused them is left.

use vstd::prelude::*;

use crate::strutil::str_eq;

verus! {

/// One term of a breadcrumb pattern.
#[derive(Clone, Debug)]
pub enum MatchPattern {
    /// The next required ancestor label.
    Matches(String),
    /// A label whose presence suspends matching while it is open.
    NotMatches(String),
}

/// The mathematical value of one pattern term.
pub enum Term {
    Req(Seq<char>),
    Exc(Seq<char>),
}

impl View for MatchPattern {
    type V = Term;

    open spec fn view(&self) -> Term {
        match self {
            MatchPattern::Matches(s) => Term::Req(s@),
            MatchPattern::NotMatches(s) => Term::Exc(s@),
        }
    }
}

/// The mathematical state of a breadcrumb matcher.
///
/// `confirmed` counts how many leading pattern terms are satisfied by the
/// open ancestor path (excluded terms inside the satisfied prefix count as
/// passed over).  `exclusions` is the stack of pattern positions whose
/// excluded term is currently triggered by an open node.  `frames` records,
/// for every open node in order of entry, the confirmed depth before it was
/// entered and how many exclusion triggers its entry pushed, so that leaving
/// the node restores the state exactly.
#[verifier::ext_equal]
pub struct MatcherState {
    pub pattern: Seq<Term>,
    pub confirmed: int,
    pub exclusions: Seq<int>,
    pub frames: Seq<(int, int)>,
}

/// The first position at or after `from` that holds a required term, or the
/// pattern length if only excluded terms remain.
pub open spec fn scan_end(p: Seq<Term>, from: int) -> int
    decreases p.len() - from
        when from >= 0
{
    if from >= p.len() {
        p.len() as int
    } else if p[from] is Req {
        from
    } else {
        scan_end(p, from + 1)
    }
}

/// The positions in the run of excluded terms starting at `from` whose
/// excluded label equals `x`, in increasing order.
pub open spec fn pushes(p: Seq<Term>, from: int, x: Seq<char>) -> Seq<int>
    decreases p.len() - from
        when from >= 0
{
    if from >= p.len() {
        Seq::<int>::empty()
    } else {
        match p[from] {
            Term::Req(_) => Seq::<int>::empty(),
            Term::Exc(l) => (if l == x {
                seq![from]
            } else {
                Seq::<int>::empty()
            }) + pushes(p, from + 1, x),
        }
    }
}

/// What entering a node labelled `x` does to the matcher state: every
/// excluded term of label `x` in the open run becomes triggered, and if the
/// required term that ends the run bears label `x`, the confirmed depth
/// advances past it.
pub open spec fn enter_step(s: MatcherState, x: Seq<char>) -> MatcherState {
    let j = scan_end(s.pattern, s.confirmed);
    let pu = pushes(s.pattern, s.confirmed, x);
    MatcherState {
        pattern: s.pattern,
        confirmed: if j < s.pattern.len() && s.pattern[j] == Term::Req(x) {
            j + 1
        } else {
            s.confirmed
        },
        exclusions: s.exclusions + pu,
        frames: s.frames.push((s.confirmed, pu.len() as int)),
    }
}

/// What leaving the most recently entered open node does: the confirmed
/// depth and the trigger stack return to what they were before that node
/// was entered.  With no open node the state is unchanged.
pub open spec fn leave_step(s: MatcherState) -> MatcherState {
    if s.frames.len() == 0 {
        s
    } else {
        MatcherState {
            pattern: s.pattern,
            confirmed: s.frames.last().0,
            exclusions: s.exclusions.take(s.exclusions.len() - s.frames.last().1),
            frames: s.frames.drop_last(),
        }
    }
}

/// True iff every required term lies within the confirmed prefix.
pub open spec fn prefix_satisfied(p: Seq<Term>, confirmed: int) -> bool {
    forall|i: int| confirmed <= i < p.len() ==> p[i] is Exc
}

/// True iff the matcher reports a match in this state: all required terms
/// are satisfied and no excluded term is triggered.
pub open spec fn full_match(s: MatcherState) -> bool {
    prefix_satisfied(s.pattern, s.confirmed) && s.exclusions.len() == 0
}

/// The total number of exclusion triggers recorded by the open frames.
pub open spec fn frames_pushed_sum(frames: Seq<(int, int)>) -> int
    decreases frames.len(),
{
    if frames.len() == 0 {
        0
    } else {
        frames_pushed_sum(frames.drop_last()) + frames.last().1
    }
}

/// Well-formedness of a matcher state: the confirmed depth is within the
/// pattern, every triggered position names an excluded term, and the open
/// frames account exactly for the trigger stack.
pub open spec fn wf_state(s: MatcherState) -> bool {
    &&& 0 <= s.confirmed <= s.pattern.len()
    &&& s.exclusions.len() == frames_pushed_sum(s.frames)
    &&& forall|i: int|
        #![trigger s.frames[i]]
        0 <= i < s.frames.len() ==> 0 <= s.frames[i].0 <= s.pattern.len() && 0 <= s.frames[i].1
    &&& forall|k: int|
        #![trigger s.exclusions[k]]
        0 <= k < s.exclusions.len() ==> 0 <= s.exclusions[k] < s.pattern.len()
            && s.pattern[s.exclusions[k]] is Exc
}

pub proof fn lemma_scan_end_props(p: Seq<Term>, from: int)
    requires
        0 <= from <= p.len(),
    ensures
        from <= scan_end(p, from) <= p.len(),
        forall|i: int| from <= i < scan_end(p, from) ==> p[i] is Exc,
        scan_end(p, from) == p.len() || p[scan_end(p, from)] is Req,
    decreases p.len() - from,
{
    if from < p.len() && !(p[from] is Req) {
        lemma_scan_end_props(p, from + 1);
    }
}

pub proof fn lemma_pushes_props(p: Seq<Term>, from: int, x: Seq<char>)
    requires
        0 <= from,
    ensures
        forall|k: int|
            0 <= k < pushes(p, from, x).len() ==> from <= #[trigger] pushes(p, from, x)[k]
                < p.len() && p[pushes(p, from, x)[k]] == Term::Exc(x),
    decreases p.len() - from,
{
    if from < p.len() && p[from] is Exc {
        lemma_pushes_props(p, from + 1, x);
    }
}

proof fn lemma_frames_sum_nonneg(frames: Seq<(int, int)>)
    requires
        forall|i: int| 0 <= i < frames.len() ==> 0 <= #[trigger] frames[i].1,
    ensures
        frames_pushed_sum(frames) >= 0,
    decreases frames.len(),
{
    if frames.len() > 0 {
        lemma_frames_sum_nonneg(frames.drop_last());
    }
}

/// Entering preserves well-formedness.
pub proof fn lemma_enter_wf(s: MatcherState, x: Seq<char>)
    requires
        wf_state(s),
    ensures
        wf_state(enter_step(s, x)),
{
    lemma_scan_end_props(s.pattern, s.confirmed);
    lemma_pushes_props(s.pattern, s.confirmed, x);
    let s2 = enter_step(s, x);
    assert(s2.frames.drop_last() =~= s.frames);
    assert(frames_pushed_sum(s2.frames) == frames_pushed_sum(s.frames) + pushes(
        s.pattern,
        s.confirmed,
        x,
    ).len());
}

/// Leaving preserves well-formedness.
pub proof fn lemma_leave_wf(s: MatcherState)
    requires
        wf_state(s),
    ensures
        wf_state(leave_step(s)),
{
    if s.frames.len() > 0 {
        assert forall|i: int| 0 <= i < s.frames.drop_last().len() implies 0 <= #[trigger] s.frames
            .drop_last()[i].1 by {
            assert(s.frames.drop_last()[i] == s.frames[i]);
        }
        lemma_frames_sum_nonneg(s.frames.drop_last());
    }
}

/// Leaving a node restores exactly the state that held before it was
/// entered, whatever that state was.
pub proof fn lemma_enter_leave_restores(s: MatcherState, x: Seq<char>)
    ensures
        leave_step(enter_step(s, x)) == s,
{
    let s1 = enter_step(s, x);
    assert(s1.frames.last() == (s.confirmed, pushes(s.pattern, s.confirmed, x).len() as int));
    assert(s1.frames.drop_last() =~= s.frames);
    assert(s1.exclusions.take(s.exclusions.len() as int) =~= s.exclusions);
    assert(leave_step(s1) =~= s);
}

/// The state of a fresh matcher for pattern `p`: nothing confirmed,
/// nothing triggered, no node open.
pub open spec fn initial_state(p: Seq<Term>) -> MatcherState {
    MatcherState {
        pattern: p,
        confirmed: 0,
        exclusions: Seq::<int>::empty(),
        frames: Seq::<(int, int)>::empty(),
    }
}

/// The matcher state after entering every label of `path` in order,
/// leaving none: the state determined by an open ancestor path.
pub open spec fn run_path(s: MatcherState, path: Seq<Seq<char>>) -> MatcherState
    decreases path.len(),
{
    if path.len() == 0 {
        s
    } else {
        run_path(enter_step(s, path[0]), path.drop_first())
    }
}

/// A subtree of the traversal, as the matcher sees it: a labelled node
/// with its children in order.
pub enum TraceTree {
    Node(Seq<char>, Seq<TraceTree>),
}

/// The matcher state after entering the node, walking all its children,
/// and leaving the node.
pub open spec fn run_tree(s: MatcherState, t: TraceTree) -> MatcherState
    decreases t, 0int,
{
    match t {
        TraceTree::Node(x, children) => leave_step(run_children(enter_step(s, x), children, 0)),
    }
}

/// The matcher state after walking the subtrees `ts[i..]` in order.
pub open spec fn run_children(s: MatcherState, ts: Seq<TraceTree>, i: int) -> MatcherState
    decreases ts, ts.len() - i
        when 0 <= i
{
    if i >= ts.len() {
        s
    } else {
        run_children(run_tree(s, ts[i]), ts, i + 1)
    }
}

/// The match reports produced while walking a subtree: one report per
/// enter event, in traversal order.
pub open spec fn reports_tree(s: MatcherState, t: TraceTree) -> Seq<bool>
    decreases t, 0int,
{
    match t {
        TraceTree::Node(x, children) => seq![full_match(enter_step(s, x))] + reports_children(
            enter_step(s, x),
            children,
            0,
        ),
    }
}

/// The match reports produced while walking the subtrees `ts[i..]`.
pub open spec fn reports_children(s: MatcherState, ts: Seq<TraceTree>, i: int) -> Seq<bool>
    decreases ts, ts.len() - i
        when 0 <= i
{
    if i >= ts.len() {
        Seq::<bool>::empty()
    } else {
        reports_tree(s, ts[i]) + reports_children(run_tree(s, ts[i]), ts, i + 1)
    }
}

/// Walking a complete subtree restores the state that held at its root:
/// sibling subtrees are evaluated independently, unaffected by a
/// preceding sibling's partial or triggered state.
pub proof fn lemma_tree_restores(s: MatcherState, t: TraceTree)
    ensures
        run_tree(s, t) == s,
    decreases t, 0int,
{
    match t {
        TraceTree::Node(x, children) => {
            lemma_children_restore(enter_step(s, x), children, 0);
            lemma_enter_leave_restores(s, x);
        },
    }
}

/// Walking any sequence of complete subtrees restores the starting state.
pub proof fn lemma_children_restore(s: MatcherState, ts: Seq<TraceTree>, i: int)
    requires
        0 <= i,
    ensures
        run_children(s, ts, i) == s,
    decreases ts, ts.len() - i,
{
    if i < ts.len() {
        lemma_tree_restores(s, ts[i]);
        lemma_children_restore(s, ts, i + 1);
    }
}

/// Re-entrancy: one matcher instance reports independent matches for
/// repeated sibling subtrees of identical shape; the second walk of `t`
/// produces exactly the reports of the first.
pub proof fn lemma_repeated_sibling_reports(s: MatcherState, t: TraceTree)
    ensures
        reports_children(s, seq![t, t], 0) == reports_tree(s, t) + reports_tree(s, t),
{
    let ts = seq![t, t];
    lemma_tree_restores(s, t);
    assert(reports_children(s, ts, 0) == reports_tree(s, ts[0]) + reports_children(
        run_tree(s, ts[0]),
        ts,
        1,
    ));
    assert(reports_children(s, ts, 1) == reports_tree(s, ts[1]) + reports_children(
        run_tree(s, ts[1]),
        ts,
        2,
    ));
    assert(reports_tree(s, t) + (reports_tree(s, t) + Seq::<bool>::empty()) =~= reports_tree(s, t)
        + reports_tree(s, t));
}

/// True iff the pattern holds no excluded term.
pub open spec fn all_required(p: Seq<Term>) -> bool {
    forall|i: int| 0 <= i < p.len() ==> p[i] is Req
}

/// The labels of the required terms of `p[from..]`, in order.
pub open spec fn required_from(p: Seq<Term>, from: int) -> Seq<Seq<char>>
    decreases p.len() - from
        when from >= 0
{
    if from >= p.len() {
        Seq::<Seq<char>>::empty()
    } else {
        match p[from] {
            Term::Req(x) => seq![x] + required_from(p, from + 1),
            Term::Exc(_) => required_from(p, from + 1),
        }
    }
}

/// `a` occurs within `b` in order: each element of `a` is matched by a
/// later-or-equal element of `b`, left to right.
pub open spec fn contains_in_order(a: Seq<Seq<char>>, b: Seq<Seq<char>>) -> bool
    decreases b.len(),
{
    if a.len() == 0 {
        true
    } else if b.len() == 0 {
        false
    } else if a[0] == b[0] {
        contains_in_order(a.drop_first(), b.drop_first())
    } else {
        contains_in_order(a, b.drop_first())
    }
}

proof fn lemma_all_required_rec(s: MatcherState, path: Seq<Seq<char>>)
    requires
        all_required(s.pattern),
        0 <= s.confirmed <= s.pattern.len(),
        s.exclusions.len() == 0,
    ensures
        full_match(run_path(s, path)) <==> contains_in_order(
            required_from(s.pattern, s.confirmed),
            path,
        ),
    decreases path.len(),
{
    let p = s.pattern;
    let c = s.confirmed;
    let a = required_from(p, c);
    if path.len() == 0 {
        if c < p.len() {
            assert(p[c] is Req);
            assert(a.len() > 0);
            assert(!prefix_satisfied(p, c));
        } else {
            assert(a.len() == 0);
            assert(prefix_satisfied(p, c));
        }
    } else {
        let x = path[0];
        let s1 = enter_step(s, x);
        assert(s1.exclusions.len() == 0);
        if c < p.len() {
            assert(p[c] is Req);
            assert(scan_end(p, c) == c);
            let y = p[c]->Req_0;
            assert(a == seq![y] + required_from(p, c + 1));
            assert(a[0] == y);
            if p[c] == Term::Req(x) {
                assert(s1.confirmed == c + 1);
                lemma_all_required_rec(s1, path.drop_first());
                assert(a.drop_first() =~= required_from(p, c + 1));
                assert(contains_in_order(a, path) == contains_in_order(
                    a.drop_first(),
                    path.drop_first(),
                ));
            } else {
                assert(s1.confirmed == c);
                lemma_all_required_rec(s1, path.drop_first());
                assert(y != x);
                assert(contains_in_order(a, path) == contains_in_order(a, path.drop_first()));
            }
        } else {
            assert(scan_end(p, c) == p.len());
            assert(s1.confirmed == c);
            assert(a.len() == 0);
            lemma_all_required_rec(s1, path.drop_first());
        }
    }
}

/// For a pattern with no excluded terms, the matcher matches exactly when
/// the open ancestor path contains, in order, a node for every required
/// term of the pattern.
pub proof fn lemma_all_required_match_iff(p: Seq<Term>, path: Seq<Seq<char>>)
    requires
        all_required(p),
    ensures
        full_match(run_path(initial_state(p), path)) <==> contains_in_order(
            required_from(p, 0),
            path,
        ),
{
    lemma_all_required_rec(initial_state(p), path);
}

/// Exclusion trigger and release for the pattern
/// `[required a, excluded b, required c]`: entering `a`, then `b`, then
/// `c` confirms the whole chain but reports no match while `b` is open;
/// after leaving `c` and `b`, entering `c` again at the same depth
/// reports a match.
pub proof fn lemma_exclusion_trigger_and_release(a: Seq<char>, b: Seq<char>, c: Seq<char>)
    requires
        b != c,
    ensures
        ({
            let p = seq![Term::Req(a), Term::Exc(b), Term::Req(c)];
            let inside = enter_step(
                enter_step(enter_step(initial_state(p), a), b),
                c,
            );
            let released = leave_step(leave_step(inside));
            !full_match(inside) && full_match(enter_step(released, c))
        }),
{
    let p = seq![Term::Req(a), Term::Exc(b), Term::Req(c)];
    let s0 = initial_state(p);
    let s1 = enter_step(s0, a);
    let s2 = enter_step(s1, b);
    let s3 = enter_step(s2, c);
    assert(scan_end(p, 0) == 0);
    assert(s1.confirmed == 1);
    assert(pushes(p, 0, a) =~= Seq::<int>::empty());
    assert(s1.exclusions =~= Seq::<int>::empty());
    assert(scan_end(p, 2) == 2);
    assert(scan_end(p, 1) == 2);
    assert(pushes(p, 2, b) =~= Seq::<int>::empty());
    assert(pushes(p, 1, b) =~= seq![1int]);
    assert(p[2] != Term::Req(b));
    assert(s2.confirmed == 1);
    assert(s2.exclusions =~= seq![1int]);
    assert(pushes(p, 2, c) =~= Seq::<int>::empty());
    assert(pushes(p, 1, c) =~= Seq::<int>::empty());
    assert(p[2] == Term::Req(c));
    assert(s3.confirmed == 3);
    assert(s3.exclusions =~= seq![1int]);
    assert(!full_match(s3));
    lemma_enter_leave_restores(s2, c);
    lemma_enter_leave_restores(s1, b);
    assert(leave_step(leave_step(s3)) == s1);
    let s4 = enter_step(s1, c);
    assert(s4.confirmed == 3);
    assert(s4.exclusions =~= Seq::<int>::empty());
    assert(prefix_satisfied(p, 3));
    assert(full_match(s4));
}

/// Nested same-named exclusions for the pattern
/// `[required a, excluded b, required c]`: entering `b` twice in nested
/// positions and leaving the inner one does not clear the outer trigger,
/// so entering `c` still reports no match.
pub proof fn lemma_nested_exclusion_not_cleared(a: Seq<char>, b: Seq<char>, c: Seq<char>)
    requires
        b != c,
    ensures
        ({
            let p = seq![Term::Req(a), Term::Exc(b), Term::Req(c)];
            let twice = enter_step(
                enter_step(enter_step(initial_state(p), a), b),
                b,
            );
            !full_match(enter_step(leave_step(twice), c))
        }),
{
    let p = seq![Term::Req(a), Term::Exc(b), Term::Req(c)];
    let s0 = initial_state(p);
    let s1 = enter_step(s0, a);
    let s2 = enter_step(s1, b);
    let s3 = enter_step(s2, b);
    assert(scan_end(p, 0) == 0);
    assert(pushes(p, 0, a) =~= Seq::<int>::empty());
    assert(s1.confirmed == 1);
    assert(s1.exclusions =~= Seq::<int>::empty());
    assert(scan_end(p, 2) == 2);
    assert(scan_end(p, 1) == 2);
    assert(pushes(p, 2, b) =~= Seq::<int>::empty());
    assert(pushes(p, 1, b) =~= seq![1int]);
    assert(p[2] != Term::Req(b));
    assert(s2.confirmed == 1);
    assert(s2.exclusions =~= seq![1int]);
    assert(s3.confirmed == 1);
    assert(s3.exclusions =~= seq![1int, 1int]);
    lemma_enter_leave_restores(s2, b);
    let s4 = leave_step(s3);
    assert(s4 == s2);
    let s5 = enter_step(s4, c);
    assert(pushes(p, 2, c) =~= Seq::<int>::empty());
    assert(pushes(p, 1, c) =~= Seq::<int>::empty());
    assert(s5.exclusions =~= seq![1int]);
    assert(!full_match(s5));
}

/// One open frame per open node.
struct Frame {
    prev_match: usize,
    pushed: usize,
}

/// A breadcrumb matcher for one compiled pattern.
pub struct BreadcrumbsMatcher {
    pattern: Vec<MatchPattern>,
    current_match: usize,
    current_notmatch: Vec<usize>,
    frames: Vec<Frame>,
}

impl View for BreadcrumbsMatcher {
    type V = MatcherState;

    closed spec fn view(&self) -> MatcherState {
        MatcherState {
            pattern: self.pattern@.map_values(|t: MatchPattern| t@),
            confirmed: self.current_match as int,
            exclusions: self.current_notmatch@.map_values(|u: usize| u as int),
            frames: self.frames@.map_values(|f: Frame| (f.prev_match as int, f.pushed as int)),
        }
    }
}

/// True iff term `i` of `v` is an excluded term.
fn term_is_excluded(v: &Vec<MatchPattern>, i: usize) -> (r: bool)
    requires
        i < v@.len(),
    ensures
        r == (v@.map_values(|t: MatchPattern| t@)[i as int] is Exc),
{
    match &v[i] {
        MatchPattern::Matches(_) => false,
        MatchPattern::NotMatches(_) => true,
    }
}

impl BreadcrumbsMatcher {
    /// A fresh matcher for `nodes`: nothing confirmed, nothing triggered,
    /// no node open.
    pub fn new(nodes: Vec<MatchPattern>) -> (r: Self)
        ensures
            r@ == (MatcherState {
                pattern: nodes@.map_values(|t: MatchPattern| t@),
                confirmed: 0,
                exclusions: Seq::<int>::empty(),
                frames: Seq::<(int, int)>::empty(),
            }),
            wf_state(r@),
    {
        let r = BreadcrumbsMatcher {
            pattern: nodes,
            current_match: 0,
            current_notmatch: Vec::new(),
            frames: Vec::new(),
        };
        proof {
            assert(r@.exclusions =~= Seq::<int>::empty());
            assert(r@.frames =~= Seq::<(int, int)>::empty());
            assert(r@ =~= (MatcherState {
                pattern: r@.pattern,
                confirmed: 0,
                exclusions: Seq::<int>::empty(),
                frames: Seq::<(int, int)>::empty(),
            }));
        }
        r
    }

    /// Advances the state for a node labelled `label` being entered, and
    /// reports whether the matcher matches at that node.
    pub fn enter(&mut self, label: &str) -> (r: bool)
        requires
            wf_state(old(self)@),
        ensures
            final(self)@ == enter_step(old(self)@, label@),
            wf_state(final(self)@),
            r == full_match(final(self)@),
    {
        let ghost s0 = self@;
        let ghost p = s0.pattern;
        let ghost x = label@;
        proof {
            lemma_scan_end_props(p, s0.confirmed);
            lemma_pushes_props(p, s0.confirmed, x);
        }
        let prev: usize = self.current_match;
        let old_len: usize = self.current_notmatch.len();
        let mut local: usize = self.current_match;
        while local < self.pattern.len() && term_is_excluded(&self.pattern, local)
            invariant
                wf_state(s0),
                self.pattern == old(self).pattern,
                self.current_match == old(self).current_match,
                self.frames == old(self).frames,
                s0 == old(self)@,
                p == s0.pattern,
                x == label@,
                prev == s0.confirmed,
                old_len == s0.exclusions.len(),
                prev <= local <= p.len(),
                forall|i: int| prev <= i < local ==> p[i] is Exc,
                scan_end(p, prev as int) == scan_end(p, local as int),
                self.current_notmatch@.map_values(|u: usize| u as int) =~= s0.exclusions
                    + pushes(p, prev as int, x).take(
                    pushes(p, prev as int, x).len() - pushes(p, local as int, x).len(),
                ),
                pushes(p, local as int, x).len() <= pushes(p, prev as int, x).len(),
                forall|k: int|
                    0 <= k < pushes(p, local as int, x).len() ==> #[trigger] pushes(
                        p,
                        local as int,
                        x,
                    )[k] == pushes(p, prev as int, x)[k + pushes(p, prev as int, x).len()
                        - pushes(p, local as int, x).len()],
            decreases p.len() - local,
        {
            let ghost pu_all = pushes(p, prev as int, x);
            let ghost pu_here = pushes(p, local as int, x);
            let ghost nm0 = self.current_notmatch@.map_values(|u: usize| u as int);
            let hit = match &self.pattern[local] {
                MatchPattern::NotMatches(s) => str_eq(s.as_str(), label),
                MatchPattern::Matches(_) => false,
            };
            proof {
                assert(p[local as int] is Exc);
                assert(pu_here == (if p[local as int] == Term::Exc(x) {
                    seq![local as int]
                } else {
                    Seq::<int>::empty()
                }) + pushes(p, local as int + 1, x));
            }
            if hit {
                self.current_notmatch.push(local);
                proof {
                    assert(p[local as int] == Term::Exc(x));
                    assert(pu_here == seq![local as int] + pushes(p, local as int + 1, x));
                    assert(self.current_notmatch@.map_values(|u: usize| u as int) =~= nm0.push(
                        local as int,
                    ));
                    let done = pu_all.len() - pu_here.len();
                    assert(pu_all[done] == pu_here[0]);
                    assert(pu_here[0] == local as int);
                    assert(s0.exclusions + pu_all.take(done + 1) =~= (s0.exclusions + pu_all.take(
                        done,
                    )).push(local as int));
                    assert(forall|k: int|
                        0 <= k < pushes(p, local as int + 1, x).len() ==> #[trigger] pushes(
                            p,
                            local as int + 1,
                            x,
                        )[k] == pu_here[k + 1]);
                }
            } else {
                proof {
                    assert(p[local as int] != Term::Exc(x));
                    assert(pu_here == pushes(p, local as int + 1, x));
                }
            }
            local = local + 1;
        }
        proof {
            assert(local as int == scan_end(p, prev as int)) by {
                if local < p.len() {
                    assert(!(p[local as int] is Exc));
                    assert(p[local as int] is Req);
                }
            }
            assert(pushes(p, local as int, x) =~= Seq::<int>::empty());
            assert(pushes(p, prev as int, x).take(pushes(p, prev as int, x).len() as int)
                =~= pushes(p, prev as int, x));
            assert(self.current_notmatch@.map_values(|u: usize| u as int) =~= s0.exclusions
                + pushes(p, prev as int, x));
        }
        if local < self.pattern.len() {
            let advance = match &self.pattern[local] {
                MatchPattern::Matches(s) => str_eq(s.as_str(), label),
                MatchPattern::NotMatches(_) => false,
            };
            if advance {
                proof {
                    assert(p[local as int] == Term::Req(x));
                }
                self.current_match = local + 1;
            } else {
                proof {
                    assert(p[local as int] != Term::Req(x));
                }
            }
        }
        let pushed: usize = self.current_notmatch.len() - old_len;
        self.frames.push(
            Frame { prev_match: prev, pushed },
        );
        proof {
            let s1 = enter_step(s0, x);
            assert(pushed as int == pushes(p, prev as int, x).len());
            assert(self@.frames =~= s0.frames.push((prev as int, pushed as int)));
            assert(self@ =~= s1);
            lemma_enter_wf(s0, x);
        }
        self.matches()
    }

    /// Retracts the state for the most recently entered open node being
    /// left, restoring exactly the state that held before it was entered.
    /// With no node open, the state is unchanged.  Under the caller's
    /// obligation to mirror the traversal nesting, `label` is the label
    /// that was entered; it does not influence the restoration.
    #[allow(unused_variables)]
    pub fn leave(&mut self, label: &str)
        requires
            wf_state(old(self)@),
        ensures
            final(self)@ == leave_step(old(self)@),
            wf_state(final(self)@),
    {
        let ghost s0 = self@;
        let popped = self.frames.pop();
        match popped {
            None => {
                proof {
                    assert(s0.frames.len() == 0);
                    assert(self@ =~= leave_step(s0));
                }
            },
            Some(f) => {
                proof {
                    assert(s0.frames.len() > 0);
                    assert(s0.frames.last() == (f.prev_match as int, f.pushed as int));
                    assert(forall|i: int|
                        0 <= i < s0.frames.len() - 1 ==> #[trigger] s0.frames.drop_last()[i]
                            == s0.frames[i]);
                    lemma_frames_sum_nonneg(s0.frames.drop_last());
                    assert(f.pushed <= s0.exclusions.len());
                }
                self.current_match = f.prev_match;
                let new_len = self.current_notmatch.len() - f.pushed;
                self.current_notmatch.truncate(new_len);
                proof {
                    assert(self.frames@ =~= old(self).frames@.drop_last());
                    assert(self@.frames =~= s0.frames.drop_last());
                    assert(self@.exclusions =~= s0.exclusions.take(
                        s0.exclusions.len() - f.pushed,
                    ));
                    assert(self@ =~= leave_step(s0));
                    lemma_leave_wf(s0);
                }
            },
        }
    }

    /// True iff all required terms are currently satisfied by the open
    /// path and no excluded term is currently triggered.
    pub fn matches(&self) -> (r: bool)
        ensures
            r == full_match(self@),
    {
        if self.current_notmatch.len() > 0 {
            return false;
        }
        let mut i: usize = self.current_match;
        while i < self.pattern.len()
            invariant
                self.current_match <= i,
                i <= self.pattern.len() || i == self.current_match,
                forall|j: int| self.current_match <= j < i ==> self@.pattern[j] is Exc,
            decreases self.pattern.len() - i,
        {
            let excluded = term_is_excluded(&self.pattern, i);
            if !excluded {
                proof {
                    assert(self@.pattern[i as int] is Req);
                }
                return false;
            }
            i += 1;
        }
        proof {
            assert(prefix_satisfied(self@.pattern, self@.confirmed));
            assert(self@.exclusions.len() == 0);
        }
        true
    }
}

} // verus!

