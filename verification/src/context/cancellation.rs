//! Cancellation: the run's token, the tokens of its attempts, and what a task observes.

use vstd::prelude::*;

verus! {

/// The state of a scope: which tokens were cancelled themselves, and from which each
/// descends.
#[verifier::ext_equal]
pub struct ScopeView {
    pub flags: Seq<bool>,
    pub parents: Seq<Option<int>>,
}

impl ScopeView {
    /// A scope without tokens.
    pub open spec fn empty() -> Self {
        ScopeView { flags: Seq::empty(), parents: Seq::empty() }
    }

    /// Each token descends from an earlier one, or from none.
    pub open spec fn wf(self) -> bool {
        &&& self.flags.len() == self.parents.len()
        &&& forall|i: int| 0 <= i < self.parents.len() ==> (#[trigger] self.parents[i] matches Some(p) ==> 0 <= p < i)
    }

    /// Whether a token is cancelled: itself, or any that it descends from.
    pub open spec fn cancelled(self, token: int) -> bool
        decreases token,
    {
        self.flags[token] || (match self.parents[token] {
            Some(p) => 0 <= p < token && self.cancelled(p),
            None => false,
        })
    }

    /// Whether `a` is the token or one that it descends from.
    pub open spec fn above(self, a: int, token: int) -> bool
        decreases token,
    {
        a == token || (match self.parents[token] {
            Some(p) => 0 <= p < token && self.above(a, p),
            None => false,
        })
    }

    /// The scope with one more token.
    pub open spec fn with_token(self, parent: Option<int>) -> Self {
        ScopeView { flags: self.flags.push(false), parents: self.parents.push(parent) }
    }

    /// The scope after a token was cancelled.
    pub open spec fn cancel(self, token: int) -> Self {
        ScopeView { flags: self.flags.update(token, true), ..self }
    }
}

/// Holds the tokens of a run. It belongs to whoever runs the attempts; a task is handed
/// signals only.
#[derive(Debug)]
pub struct CancellationScope {
    flags: Vec<bool>,
    parents: Vec<Option<usize>>,
}

impl View for CancellationScope {
    type V = ScopeView;

    closed spec fn view(&self) -> ScopeView {
        ScopeView {
            flags: self.flags@,
            parents: self.parents@.map_values(
                |p: Option<usize>|
                    match p {
                        Some(i) => Some(i as int),
                        None => None,
                    },
            ),
        }
    }
}

impl CancellationScope {
    /// A scope without tokens.
    #[must_use]
    pub fn new() -> (r: Self)
        ensures
            r@ == ScopeView::empty(),
            r@.wf(),
    {
        let r = CancellationScope { flags: Vec::new(), parents: Vec::new() };
        assert(r@ =~= ScopeView::empty());
        r
    }

    fn add_token(&mut self, parent: Option<usize>) -> (r: usize)
        requires
            old(self)@.wf(),
            parent matches Some(p) ==> p < old(self)@.flags.len(),
        ensures
            final(self)@.wf(),
            r == old(self)@.flags.len(),
            final(self)@ == old(self)@.with_token(
                match parent {
                    Some(p) => Some(p as int),
                    None => None,
                },
            ),
    {
        let ghost before = self@;
        let token: usize = self.flags.len();
        self.flags.push(false);
        self.parents.push(parent);
        proof {
            let after = before.with_token(
                match parent {
                    Some(p) => Some(p as int),
                    None => None,
                },
            );
            assert(self@ =~= after);
            assert forall|i: int| 0 <= i < after.parents.len() implies (#[trigger] after.parents[i] matches Some(p) ==> 0
                <= p < i) by {
                if i < before.parents.len() {
                    assert(after.parents[i] == before.parents[i]);
                }
            }
        }
        token
    }

    fn observe(&self, token: usize) -> (r: bool)
        requires
            self@.wf(),
            token < self@.flags.len(),
        ensures
            r == self@.cancelled(token as int),
        decreases token,
    {
        if self.flags[token] {
            return true;
        }
        assert(self@.parents[token as int] matches Some(p) ==> 0 <= p < token);
        match self.parents[token] {
            Some(p) => self.observe(p),
            None => false,
        }
    }
}

/// What a task observes. It cannot cancel anything.
#[derive(Debug, Clone, Copy, PartialEq, Eq, Structural)]
pub struct CancellationSignal {
    token: Option<usize>,
}

impl CancellationSignal {
    /// The token that is observed, where there is one.
    pub closed spec fn token(self) -> Option<int> {
        match self.token {
            Some(t) => Some(t as int),
            None => None,
        }
    }

    /// The signal that nothing ever raises.
    pub closed spec fn never_spec() -> Self {
        CancellationSignal { token: None }
    }

    /// Whether the signal is of this scope.
    pub open spec fn of(self, scope: ScopeView) -> bool {
        self.token() matches Some(t) ==> 0 <= t < scope.flags.len()
    }

    /// What the signal shows.
    pub open spec fn shows(self, scope: ScopeView) -> bool {
        match self.token() {
            Some(t) => scope.cancelled(t),
            None => false,
        }
    }

    /// A signal that nothing ever raises.
    #[must_use]
    pub fn never() -> (r: Self)
        ensures
            r == CancellationSignal::never_spec(),
            r.token() is None,
    {
        CancellationSignal { token: None }
    }

    /// Whether the token, or any that it descends from, was cancelled.
    #[must_use]
    pub fn is_cancelled(&self, scope: &CancellationScope) -> (r: bool)
        requires
            scope@.wf(),
            self.of(scope@),
        ensures
            r == self.shows(scope@),
    {
        match self.token {
            Some(t) => scope.observe(t),
            None => false,
        }
    }
}

/// What raises a signal. It is never handed to a task.
#[derive(Debug, Clone, Copy, PartialEq, Eq, Structural)]
pub struct CancellationSource {
    token: usize,
}

impl CancellationSource {
    /// The token that is cancelled.
    pub closed spec fn token(self) -> int {
        self.token as int
    }

    /// Whether the source is of this scope.
    pub open spec fn of(self, scope: ScopeView) -> bool {
        0 <= self.token() < scope.flags.len()
    }

    /// The token of a run, which is not cancelled.
    #[must_use]
    pub fn new(scope: &mut CancellationScope) -> (r: Self)
        requires
            old(scope)@.wf(),
        ensures
            final(scope)@.wf(),
            r.token() == old(scope)@.flags.len(),
            final(scope)@ == old(scope)@.with_token(None),
    {
        CancellationSource { token: scope.add_token(None) }
    }

    /// The token of an attempt, which descends from this one and is not cancelled itself.
    #[must_use]
    pub fn child(&self, scope: &mut CancellationScope) -> (r: CancellationSource)
        requires
            old(scope)@.wf(),
            self.of(old(scope)@),
        ensures
            final(scope)@.wf(),
            r.token() == old(scope)@.flags.len(),
            final(scope)@ == old(scope)@.with_token(Some(self.token())),
    {
        CancellationSource { token: scope.add_token(Some(self.token)) }
    }

    /// Whether the token, or any that it descends from, was cancelled.
    #[must_use]
    pub fn is_cancelled(&self, scope: &CancellationScope) -> (r: bool)
        requires
            scope@.wf(),
            self.of(scope@),
        ensures
            r == scope@.cancelled(self.token()),
    {
        scope.observe(self.token)
    }

    /// A signal that shows this token.
    #[must_use]
    pub fn signal(&self) -> (r: CancellationSignal)
        ensures
            r.token() == Some(self.token()),
    {
        CancellationSignal { token: Some(self.token) }
    }

    /// Cancels the token and all that descend from it, and no other.
    pub fn cancel(&self, scope: &mut CancellationScope)
        requires
            old(scope)@.wf(),
            self.of(old(scope)@),
        ensures
            final(scope)@.wf(),
            final(scope)@ == old(scope)@.cancel(self.token()),
    {
        let ghost before = scope@;
        scope.flags.set(self.token, true);
        assert(scope@ =~= before.cancel(self.token()));
    }
}

/// Why a run was cancelled.
#[derive(Debug, Clone, Copy, PartialEq, Eq, Structural)]
#[non_exhaustive]
pub enum CancellationOrigin {
    /// A node failed in a run that stops on the first failure.
    FailureUnderStop,
    /// An interrupt from outside.
    ExternalInterrupt,
}

/// Cancelling a token cancels exactly the tokens that descend from it and itself: a run's
/// cancellation reaches every attempt, and an attempt's neither the run nor its siblings.
pub proof fn law_cancel_reaches_descendants_only(scope: ScopeView, a: int, token: int)
    requires
        scope.wf(),
        0 <= a < scope.flags.len(),
        0 <= token < scope.flags.len(),
    ensures
        scope.cancel(a).wf(),
        scope.cancel(a).cancelled(token) == (scope.cancelled(token) || scope.above(a, token)),
    decreases token,
{
    let after = scope.cancel(a);
    match scope.parents[token] {
        Some(p) => {
            law_cancel_reaches_descendants_only(scope, a, p);
        },
        None => {},
    }
}

/// Cancelling twice is cancelling once.
pub proof fn law_cancel_is_idempotent(scope: ScopeView, a: int)
    requires
        0 <= a < scope.flags.len(),
    ensures
        scope.cancel(a).cancel(a) == scope.cancel(a),
{
    assert(scope.cancel(a).cancel(a) =~= scope.cancel(a));
}

/// A fresh token of an attempt is cancelled exactly when its run is, and a fresh token of
/// a run is not; no token that was there before is changed by either.
pub proof fn law_fresh_token_follows_its_parent(scope: ScopeView, parent: Option<int>, token: int)
    requires
        scope.wf(),
        parent matches Some(p) ==> 0 <= p < scope.flags.len(),
        0 <= token < scope.flags.len(),
    ensures
        scope.with_token(parent).cancelled(scope.flags.len() as int) == (match parent {
            Some(p) => scope.cancelled(p),
            None => false,
        }),
        scope.with_token(parent).cancelled(token) == scope.cancelled(token),
    decreases token,
{
    let after = scope.with_token(parent);
    let n = scope.flags.len() as int;
    lemma_older_unchanged(scope, parent, token);
    match parent {
        Some(p) => {
            lemma_older_unchanged(scope, parent, p);
        },
        None => {},
    }
    assert(after.parents[n] == parent);
}

proof fn lemma_older_unchanged(scope: ScopeView, parent: Option<int>, token: int)
    requires
        scope.wf(),
        0 <= token < scope.flags.len(),
    ensures
        scope.with_token(parent).cancelled(token) == scope.cancelled(token),
    decreases token,
{
    let after = scope.with_token(parent);
    assert(after.flags[token] == scope.flags[token]);
    assert(after.parents[token] == scope.parents[token]);
    match scope.parents[token] {
        Some(p) => {
            lemma_older_unchanged(scope, parent, p);
        },
        None => {},
    }
}

/// A token is cancelled exactly where it or one that it descends from was cancelled itself;
/// what it descends from is its parent and what that descends from.
pub proof fn law_a_token_is_cancelled_with_its_line(scope: ScopeView, token: int, a: int)
    requires
        scope.wf(),
        0 <= token < scope.flags.len(),
    ensures
        scope.cancelled(token) <==> exists|b: int| #[trigger] scope.above(b, token) && scope.flags[b],
        scope.above(token, token),
        scope.parents[token] matches Some(p) ==> (scope.above(a, token) <==> a == token || scope.above(a, p)),
        scope.parents[token] is None ==> (scope.above(a, token) <==> a == token),
    decreases token,
{
    assert(scope.above(token, token));
    match scope.parents[token] {
        Some(p) => {
            law_a_token_is_cancelled_with_its_line(scope, p, a);
            if scope.cancelled(p) {
                let b = choose|b: int| #[trigger] scope.above(b, p) && scope.flags[b];
                assert(scope.above(b, token));
            }
            if exists|b: int| #[trigger] scope.above(b, token) && scope.flags[b] {
                let b = choose|b: int| #[trigger] scope.above(b, token) && scope.flags[b];
                if b != token {
                    assert(scope.above(b, p));
                }
            }
        },
        None => {},
    }
}

/// A signal shows what its token is, and one without a token never shows anything. A scope
/// begins without tokens; a further one is not cancelled itself, and to cancel one changes
/// neither the others nor what descends from what.
pub proof fn law_a_signal_shows_its_token(signal: CancellationSignal, scope: ScopeView, parent: Option<int>, a: int)
    ensures
        signal.token() matches Some(t) ==> signal.shows(scope) == scope.cancelled(t),
        signal.token() is None ==> !signal.shows(scope),
        CancellationSignal::never_spec().token() is None,
        ScopeView::empty().flags.len() == 0 && ScopeView::empty().parents.len() == 0,
        scope.with_token(parent).flags == scope.flags + seq![false],
        scope.with_token(parent).parents == scope.parents + seq![parent],
        0 <= a < scope.flags.len() ==> scope.cancel(a).flags == scope.flags.take(a) + seq![true] + scope.flags.skip(a + 1),
        scope.cancel(a).parents == scope.parents,
{
    assert(scope.flags.push(false) =~= scope.flags + seq![false]);
    assert(scope.parents.push(parent) =~= scope.parents + seq![parent]);
    if 0 <= a < scope.flags.len() {
        assert(scope.flags.update(a, true) =~= scope.flags.take(a) + seq![true] + scope.flags.skip(a + 1));
    }
}

} // verus!
