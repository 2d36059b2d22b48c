//! Requests on blocking resources. A `Block` wraps a resource that decides
//! for itself which requests it can grant; requests it cannot grant yet wait
//! in order, and are granted as soon as the resource allows.
//!
//! A request carries a ticket that names what to do once it is granted; the
//! caller runs that continuation for each ticket it gets back.
use vstd::prelude::*;

verus! {

/// The kind of access requested.
#[derive(Copy, Clone, Debug, PartialEq, Eq, Structural)]
pub enum ReqType {
    Read,
    Write,
}

/// A granted request: its id given by the resource, and what it grants.
#[derive(Copy, Clone, Debug, PartialEq, Eq, Structural)]
pub struct ReqId {
    pub id: usize,
    pub req: ReqType,
}

/// Why a resource refused a request.
#[derive(Copy, Clone, Debug, PartialEq, Eq, Structural)]
pub enum ReqErr {
    InUse,
}

/// Anything a block can hand out access to.
pub trait BlockAccess {}

/// A resource that decides which requests it grants. Implemented by the
/// users of `Block`.
pub trait Blockable {
    fn request(&mut self, req: &ReqType) -> Result<ReqId, ReqErr>;

    fn release(&mut self, req: ReqId);
}

/// A resource with the requests that wait for it, oldest first; each waiting
/// request holds its ticket.
pub struct Block<R: Blockable> {
    resource: R,
    waiting: Vec<(ReqType, usize)>,
}

/// The waiting requests the resource refused, given its answer to each in
/// order: they keep waiting, in order.
pub open spec fn refused(w: Seq<(ReqType, usize)>, a: Seq<Result<ReqId, ReqErr>>) -> Seq<
    (ReqType, usize),
>
    decreases w.len(),
{
    if w.len() == 0 {
        Seq::empty()
    } else {
        let rest = refused(w.drop_last(), a.take(w.len() - 1));
        if a[w.len() - 1] is Err {
            rest.push(w.last())
        } else {
            rest
        }
    }
}

/// The tickets of the waiting requests the resource granted, with the ids
/// it gave, in order.
pub open spec fn granted(w: Seq<(ReqType, usize)>, a: Seq<Result<ReqId, ReqErr>>) -> Seq<
    (usize, ReqId),
>
    decreases w.len(),
{
    if w.len() == 0 {
        Seq::empty()
    } else {
        let rest = granted(w.drop_last(), a.take(w.len() - 1));
        match a[w.len() - 1] {
            Ok(id) => rest.push((w.last().1, id)),
            Err(_) => rest,
        }
    }
}

proof fn lemma_settle_step(w: Seq<(ReqType, usize)>, a: Seq<Result<ReqId, ReqErr>>, i: int)
    requires
        w.len() == a.len(),
        0 <= i < w.len(),
    ensures
        refused(w.take(i + 1), a.take(i + 1)) == if a[i] is Err {
            refused(w.take(i), a.take(i)).push(w[i])
        } else {
            refused(w.take(i), a.take(i))
        },
        granted(w.take(i + 1), a.take(i + 1)) == match a[i] {
            Ok(id) => granted(w.take(i), a.take(i)).push((w[i].1, id)),
            Err(_) => granted(w.take(i), a.take(i)),
        },
{
    assert(w.take(i + 1).drop_last() =~= w.take(i));
    assert(a.take(i + 1).take(i) =~= a.take(i));
}

/// What the waiting requests and the grants become given the resource's
/// answer to each waiting request, in order: granted requests leave the
/// list and come back with their tickets, in order; refused ones stay.
pub fn settle(waiting: &Vec<(ReqType, usize)>, answers: &Vec<Result<ReqId, ReqErr>>) -> (r: (
    Vec<(ReqType, usize)>,
    Vec<(usize, ReqId)>,
))
    requires
        waiting@.len() == answers@.len(),
    ensures
        r.0@ == refused(waiting@, answers@),
        r.1@ == granted(waiting@, answers@),
{
    let mut kept: Vec<(ReqType, usize)> = Vec::new();
    let mut given: Vec<(usize, ReqId)> = Vec::new();
    let mut i: usize = 0;
    while i < waiting.len()
        invariant
            waiting@.len() == answers@.len(),
            i <= waiting@.len(),
            kept@ == refused(waiting@.take(i as int), answers@.take(i as int)),
            given@ == granted(waiting@.take(i as int), answers@.take(i as int)),
        decreases waiting@.len() - i,
    {
        proof {
            lemma_settle_step(waiting@, answers@, i as int);
        }
        match &answers[i] {
            Ok(id) => {
                given.push((waiting[i].1, *id));
            },
            Err(_) => {
                kept.push(waiting[i]);
            },
        }
        i = i + 1;
    }
    proof {
        assert(waiting@.take(waiting@.len() as int) =~= waiting@);
        assert(answers@.take(answers@.len() as int) =~= answers@);
    }
    (kept, given)
}

/// The requests waiting after the resource's answer `first` to a new
/// request: the new one waits, last, when refused.
pub open spec fn after_first(
    w: Seq<(ReqType, usize)>,
    req: ReqType,
    ticket: usize,
    first: Result<ReqId, ReqErr>,
) -> Seq<(ReqType, usize)> {
    if first is Ok {
        w
    } else {
        w.push((req, ticket))
    }
}

/// The grant of a new request answered `first`, if any.
pub open spec fn first_grant(ticket: usize, first: Result<ReqId, ReqErr>) -> Seq<(usize, ReqId)> {
    match first {
        Ok(id) => seq![(ticket, id)],
        Err(_) => Seq::empty(),
    }
}

impl<R: Blockable> Block<R> {
    /// The requests waiting, oldest first.
    pub closed spec fn waiting(&self) -> Seq<(ReqType, usize)> {
        self.waiting@
    }

    /// Wrap a resource; nothing waits.
    pub fn new(resource: R) -> (b: Self)
        ensures
            b.waiting() == Seq::<(ReqType, usize)>::empty(),
    {
        Block { resource, waiting: Vec::new() }
    }

    /// Ask the resource again for each waiting request, oldest first, and
    /// `settle` with its answers.
    fn try_drain(&mut self) -> (r: Vec<(usize, ReqId)>)
        ensures
            exists|answers: Seq<Result<ReqId, ReqErr>>|
                #![trigger answers.len()]
                answers.len() == old(self).waiting().len() && final(self).waiting() == refused(
                    old(self).waiting(),
                    answers,
                ) && r@ == granted(old(self).waiting(), answers),
    {
        let mut answers: Vec<Result<ReqId, ReqErr>> = Vec::new();
        let mut i: usize = 0;
        while i < self.waiting.len()
            invariant
                self.waiting@ == old(self).waiting@,
                i <= self.waiting@.len(),
                answers@.len() == i,
            decreases self.waiting@.len() - i,
        {
            let req = self.waiting[i].0;
            let answer = self.resource.request(&req);
            answers.push(answer);
            i = i + 1;
        }
        let (kept, given) = settle(&self.waiting, &answers);
        self.waiting = kept;
        given
    }

    /// Request `req` for the continuation named by `ticket`: the resource is
    /// asked first; a refused request waits, last. Then the waiting requests
    /// are asked again (`try_drain`). Gives the tickets granted, with their
    /// ids: this request's first if it was granted at once.
    pub fn request(&mut self, req: ReqType, ticket: usize) -> (r: Vec<(usize, ReqId)>)
        ensures
            exists|first: Result<ReqId, ReqErr>, answers: Seq<Result<ReqId, ReqErr>>|
                #![trigger after_first(old(self).waiting(), req, ticket, first), answers.len()]
                {
                    let w1 = after_first(old(self).waiting(), req, ticket, first);
                    &&& answers.len() == w1.len()
                    &&& final(self).waiting() == refused(w1, answers)
                    &&& r@ == first_grant(ticket, first) + granted(w1, answers)
                },
    {
        let first = self.resource.request(&req);
        let mut out: Vec<(usize, ReqId)> = Vec::new();
        match first {
            Ok(id) => {
                out.push((ticket, id));
            },
            Err(_) => {
                self.waiting.push((req, ticket));
            },
        }
        let ghost out0 = out@;
        let ghost w1 = self.waiting@;
        proof {
            assert(w1 == after_first(old(self).waiting(), req, ticket, first));
            assert(out0 == first_grant(ticket, first));
        }
        let mut more = self.try_drain();
        let ghost m = more@;
        out.append(&mut more);
        proof {
            let answers = choose|answers: Seq<Result<ReqId, ReqErr>>|
                #![trigger answers.len()]
                answers.len() == w1.len() && self.waiting() == refused(w1, answers) && m == granted(
                    w1,
                    answers,
                );
            assert(answers.len() == w1.len());
            assert(out@ == first_grant(ticket, first) + granted(w1, answers));
        }
        out
    }

    /// Give back a granted request, then ask again for the waiting ones
    /// (`try_drain`). Gives the tickets granted, with their ids.
    pub fn release(&mut self, req: ReqId) -> (r: Vec<(usize, ReqId)>)
        ensures
            exists|answers: Seq<Result<ReqId, ReqErr>>|
                #![trigger answers.len()]
                answers.len() == old(self).waiting().len() && final(self).waiting() == refused(
                    old(self).waiting(),
                    answers,
                ) && r@ == granted(old(self).waiting(), answers),
    {
        self.resource.release(req);
        self.try_drain()
    }
}

} // verus!
