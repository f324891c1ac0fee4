//! Handlers: the steps that process items and binds.
use std::sync::Arc;
use vstd::prelude::*;

verus! {

/// The error a handler fails with.
#[derive(Debug)]
pub struct Error {
    pub message: String,
}

impl Error {
    /// An error with the given message.
    pub fn new(message: &str) -> (r: Error)
        ensures
            r.message@ == message@,
    {
        Error { message: String::from_str(message) }
    }

    /// The message of the error.
    pub fn description(&self) -> (r: &str)
        ensures
            r@ == self.message@,
    {
        self.message.as_str()
    }
}

/// A step that processes a value in place, and may fail.
pub trait Handle<T> {
    /// Whether processing `before` may leave `after`, succeeding when `ok`.
    /// A handler that does not say allows anything.
    open spec fn handles(&self, before: T, after: T, ok: bool) -> bool {
        true
    }

    /// Whether processing `before` may leave `after` and fail with `error`.
    /// A handler that does not say allows any error of a failed run.
    open spec fn fails_with(&self, before: T, after: T, error: Error) -> bool {
        self.handles(before, after, false)
    }

    fn handle(&self, target: &mut T) -> (r: Result<(), Error>)
        ensures
            self.handles(*old(target), *final(target), r is Ok),
            r matches Err(e) ==> self.fails_with(*old(target), *final(target), e),
    ;
}

impl<T, H: Handle<T>> Handle<T> for Arc<H> {
    open spec fn handles(&self, before: T, after: T, ok: bool) -> bool {
        (**self).handles(before, after, ok)
    }

    open spec fn fails_with(&self, before: T, after: T, error: Error) -> bool {
        (**self).fails_with(before, after, error)
    }

    fn handle(&self, target: &mut T) -> (r: Result<(), Error>) {
        (**self).handle(target)
    }
}

impl<T, H: Handle<T>> Handle<T> for Box<H> {
    open spec fn handles(&self, before: T, after: T, ok: bool) -> bool {
        (**self).handles(before, after, ok)
    }

    open spec fn fails_with(&self, before: T, after: T, error: Error) -> bool {
        (**self).fails_with(before, after, error)
    }

    fn handle(&self, target: &mut T) -> (r: Result<(), Error>) {
        (**self).handle(target)
    }
}

/// A handler kept as a trait object: one link of a chain.
#[verifier::reject_recursive_types(T)]
pub struct Link<T> {
    handler: Box<dyn Handle<T>>,
}

impl<T> Link<T> {
    /// What the linked handler may do.
    pub closed spec fn link_handles(&self, before: T, after: T, ok: bool) -> bool {
        self.handler.handles(before, after, ok)
    }

    /// The errors the linked handler may fail with.
    pub closed spec fn link_fails_with(&self, before: T, after: T, error: Error) -> bool {
        self.handler.fails_with(before, after, error)
    }

    /// Keeps `handler` as a trait object: the link may do what `handler`
    /// may do. The handler is kept boxed, so that the object is the `Box<H>`
    /// handler, whose behaviour is that of `handler`.
    pub fn new<H: Handle<T> + 'static>(handler: H) -> (r: Link<T>)
        ensures
            forall|before: T, after: T, ok: bool|
                #[trigger] r.link_handles(before, after, ok) == handler.handles(before, after, ok),
            forall|before: T, after: T, error: Error|
                #[trigger] r.link_fails_with(before, after, error) == handler.fails_with(before, after, error),
    {
        Link { handler: Box::new(Box::new(handler)) }
    }

    /// Runs the linked handler.
    pub fn run(&self, target: &mut T) -> (r: Result<(), Error>)
        ensures
            self.link_handles(*old(target), *final(target), r is Ok),
            r matches Err(e) ==> self.link_fails_with(*old(target), *final(target), e),
    {
        self.handler.handle(target)
    }
}

/// Running the handlers `hs` one after the other on `before` may leave
/// `after`: each runs on what the one before left, and the first failure
/// stops the run. The run succeeds when no handler failed.
pub open spec fn chain_handles<T>(hs: Seq<Link<T>>, before: T, after: T, ok: bool) -> bool
    decreases hs.len(),
{
    if hs.len() == 0 {
        after == before && ok
    } else {
        exists|mid: T, first_ok: bool|
            #[trigger] hs[0].link_handles(before, mid, first_ok) && if first_ok {
                chain_handles(hs.drop_first(), mid, after, ok)
            } else {
                after == mid && !ok
            }
    }
}

/// Running the handlers `hs` one after the other on `before` may leave
/// `after` and fail with `error`: the handlers before one succeed, each on
/// what the one before left, and that one fails with `error`.
pub open spec fn chain_fails_with<T>(hs: Seq<Link<T>>, before: T, after: T, error: Error) -> bool
    decreases hs.len(),
{
    if hs.len() == 0 {
        false
    } else {
        ||| exists|mid: T|
            #[trigger] hs[0].link_handles(before, mid, true) && chain_fails_with(
                hs.drop_first(),
                mid,
                after,
                error,
            )
        ||| hs[0].link_handles(before, after, false) && hs[0].link_fails_with(before, after, error)
    }
}

/// A run of the first `i` handlers that succeeded, followed by the failure
/// of the next with `error`, is a failure of the chain with `error`.
proof fn lemma_chain_fails<T>(hs: Seq<Link<T>>, i: int, a: T, b: T, c: T, error: Error)
    requires
        0 <= i < hs.len(),
        chain_handles(hs.take(i), a, b, true),
        hs[i].link_handles(b, c, false),
        hs[i].link_fails_with(b, c, error),
    ensures
        chain_fails_with(hs, a, c, error),
    decreases i,
{
    if i > 0 {
        let prefix = hs.take(i);
        let (mid, first_ok) = choose|mid: T, first_ok: bool|
            #[trigger] prefix[0].link_handles(a, mid, first_ok) && if first_ok {
                chain_handles(prefix.drop_first(), mid, b, true)
            } else {
                b == mid && !true
            };
        let rest = hs.drop_first();
        assert(prefix.drop_first() == rest.take(i - 1));
        assert(rest[i - 1] == hs[i]);
        lemma_chain_fails(rest, i - 1, mid, b, c, error);
        assert(hs[0].link_handles(a, mid, true));
    }
}

/// A run of the first `i` handlers that succeeded, followed by a run of the
/// rest, is a run of all of them.
proof fn lemma_chain_compose<T>(hs: Seq<Link<T>>, i: int, a: T, b: T, c: T, ok: bool)
    requires
        0 <= i <= hs.len(),
        chain_handles(hs.take(i), a, b, true),
        chain_handles(hs.skip(i), b, c, ok),
    ensures
        chain_handles(hs, a, c, ok),
    decreases i,
{
    if i == 0 {
        assert(hs.skip(0) == hs);
    } else {
        let prefix = hs.take(i);
        let (mid, first_ok) = choose|mid: T, first_ok: bool|
            #[trigger] prefix[0].link_handles(a, mid, first_ok) && if first_ok {
                chain_handles(prefix.drop_first(), mid, b, true)
            } else {
                b == mid && !true
            };
        assert(first_ok);
        let rest = hs.drop_first();
        assert(prefix.drop_first() == rest.take(i - 1));
        assert(hs.skip(i) == rest.skip(i - 1));
        lemma_chain_compose(rest, i - 1, mid, b, c, ok);
        assert(hs[0].link_handles(a, mid, true));
    }
}

/// A single handler's run is a run of the chain of that handler alone.
proof fn lemma_chain_single<T>(h: Link<T>, before: T, after: T, ok: bool)
    requires
        h.link_handles(before, after, ok),
    ensures
        chain_handles(seq![h], before, after, ok),
{
    let hs = seq![h];
    assert(hs[0].link_handles(before, after, ok));
    if ok {
        assert(hs.drop_first() == Seq::<Link<T>>::empty());
        assert(chain_handles(hs.drop_first(), after, after, true));
    }
}

/// A handler linked after a chain runs on what the chain left where the
/// chain succeeded: that run is a run of the longer chain.
pub proof fn lemma_chain_then<T>(hs: Seq<Link<T>>, h: Link<T>, before: T, mid: T, after: T, ok: bool)
    requires
        chain_handles(hs, before, mid, true),
        h.link_handles(mid, after, ok),
    ensures
        chain_handles(hs.push(h), before, after, ok),
{
    let all = hs.push(h);
    assert(all.take(hs.len() as int) == hs);
    assert(all.skip(hs.len() as int) == seq![h]);
    lemma_chain_single(h, mid, after, ok);
    lemma_chain_compose(all, hs.len() as int, before, mid, after, ok);
}

/// A handler linked after a chain does not run where the chain failed: the
/// failed run of the chain is a failed run of the longer chain.
pub proof fn lemma_chain_stops<T>(hs: Seq<Link<T>>, h: Link<T>, before: T, after: T)
    requires
        chain_handles(hs, before, after, false),
    ensures
        chain_handles(hs.push(h), before, after, false),
    decreases hs.len(),
{
    let all = hs.push(h);
    let (mid, first_ok) = choose|mid: T, first_ok: bool|
        #[trigger] hs[0].link_handles(before, mid, first_ok) && if first_ok {
            chain_handles(hs.drop_first(), mid, after, false)
        } else {
            after == mid && !false
        };
    assert(all[0] == hs[0]);
    if first_ok {
        assert(all.drop_first() == hs.drop_first().push(h));
        lemma_chain_stops(hs.drop_first(), h, mid, after);
    }
    assert(all[0].link_handles(before, mid, first_ok));
}

/// A chain of handlers that run one after the other.
#[verifier::reject_recursive_types(T)]
pub struct Chain<T> {
    handlers: Vec<Link<T>>,
}

impl<T> Chain<T> {
    /// The handlers of the chain, in the order they run.
    pub closed spec fn handlers_view(&self) -> Seq<Link<T>> {
        self.handlers@
    }

    /// An empty chain.
    pub fn new() -> (r: Chain<T>)
        ensures
            r.handlers_view() == Seq::<Link<T>>::empty(),
    {
        Chain { handlers: Vec::new() }
    }

    /// The chain with `handler` run after the handlers it has.
    pub fn link<H: Handle<T> + 'static>(self, handler: H) -> (r: Chain<T>)
        ensures
            r.handlers_view().len() == self.handlers_view().len() + 1,
            r.handlers_view().take(self.handlers_view().len() as int) == self.handlers_view(),
            forall|before: T, after: T, ok: bool|
                #[trigger] r.handlers_view().last().link_handles(before, after, ok) == handler.handles(
                    before,
                    after,
                    ok,
                ),
            forall|before: T, after: T, error: Error|
                #[trigger] r.handlers_view().last().link_fails_with(before, after, error)
                    == handler.fails_with(before, after, error),
    {
        let mut handlers = self.handlers;
        handlers.push(Link::new(handler));
        Chain { handlers }
    }

    /// The chain with the linked handler `handler` run after the handlers it
    /// has.
    pub fn link_boxed(self, handler: Link<T>) -> (r: Chain<T>)
        ensures
            r.handlers_view() == self.handlers_view().push(handler),
    {
        let mut handlers = self.handlers;
        handlers.push(handler);
        Chain { handlers }
    }
}

impl<T> Handle<T> for Chain<T> {
    open spec fn handles(&self, before: T, after: T, ok: bool) -> bool {
        chain_handles(self.handlers_view(), before, after, ok)
    }

    /// The chain fails with the error of the handler that failed.
    open spec fn fails_with(&self, before: T, after: T, error: Error) -> bool {
        chain_fails_with(self.handlers_view(), before, after, error)
    }

    fn handle(&self, target: &mut T) -> (r: Result<(), Error>) {
        let ghost hs = self.handlers@;
        let ghost start = *target;
        assert(hs.take(0) == Seq::<Link<T>>::empty());
        let mut i: usize = 0;
        while i < self.handlers.len()
            invariant
                hs == self.handlers@,
                hs == self.handlers_view(),
                start == *old(target),
                i <= hs.len(),
                chain_handles(hs.take(i as int), start, *target, true),
            decreases hs.len() - i,
        {
            let ghost before = *target;
            let result = self.handlers[i].run(target);
            proof {
                let after = *target;
                assert(hs[i as int].link_handles(before, after, result is Ok));
                lemma_chain_single(hs[i as int], before, after, result is Ok);
                let next = hs.take(i + 1);
                assert(next.take(i as int) == hs.take(i as int));
                assert(next.skip(i as int) == seq![hs[i as int]]);
                if result is Ok {
                    lemma_chain_compose(next, i as int, start, before, after, true);
                } else {
                    lemma_chain_fails(hs, i as int, start, before, after, result->Err_0);
                    let rest = hs.skip(i as int);
                    assert(rest[0] == hs[i as int]);
                    assert(rest[0].link_handles(before, after, false));
                    assert(chain_handles(rest, before, after, false));
                    lemma_chain_compose(hs, i as int, start, before, after, false);
                }
            }
            if result.is_err() {
                return result;
            }
            i = i + 1;
        }
        assert(hs.take(hs.len() as int) == hs);
        Ok(())
    }
}

/// A chain of handlers of binds.
pub type BindChain = Chain<crate::bind::Bind>;

/// A chain of handlers of items.
pub type ItemChain = Chain<crate::item::Item>;

/// A handler that runs only on the values that satisfy a condition.
#[verifier::reject_recursive_types(T)]
pub struct HandleIf<C: Fn(&T) -> bool, T, H: Handle<T>> {
    condition: C,
    handler: H,
    _target: std::marker::PhantomData<T>,
}

impl<C: Fn(&T) -> bool, T, H: Handle<T>> HandleIf<C, T, H> {
    #[verifier::type_invariant]
    closed spec fn condition_total(&self) -> bool {
        forall|t: &T| call_requires(self.condition, (t,))
    }

    /// The condition.
    pub closed spec fn condition_view(&self) -> C {
        self.condition
    }

    /// The handler run where the condition holds.
    pub closed spec fn handler_view(&self) -> H {
        self.handler
    }
}

/// A handler that runs `handler` on the values that satisfy `condition`,
/// and leaves the others as they are.
pub fn handle_if<C: Fn(&T) -> bool, T, H: Handle<T>>(condition: C, handler: H) -> (r: HandleIf<C, T, H>)
    requires
        forall|t: &T| call_requires(condition, (t,)),
    ensures
        r.condition_view() == condition,
        r.handler_view() == handler,
{
    HandleIf { condition, handler, _target: std::marker::PhantomData }
}

impl<C: Fn(&T) -> bool, T, H: Handle<T>> Handle<T> for HandleIf<C, T, H> {
    open spec fn handles(&self, before: T, after: T, ok: bool) -> bool {
        ||| call_ensures(self.condition_view(), (&before,), true) && self.handler_view().handles(
            before,
            after,
            ok,
        )
        ||| call_ensures(self.condition_view(), (&before,), false) && after == before && ok
    }

    /// Only the handler fails, with its own error, where the condition held.
    open spec fn fails_with(&self, before: T, after: T, error: Error) -> bool {
        call_ensures(self.condition_view(), (&before,), true) && self.handler_view().fails_with(
            before,
            after,
            error,
        )
    }

    fn handle(&self, target: &mut T) -> (r: Result<(), Error>) {
        proof {
            use_type_invariant(self);
        }
        if (self.condition)(&*target) {
            self.handler.handle(target)
        } else {
            Ok(())
        }
    }
}

} // verus!
